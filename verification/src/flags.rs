//! Flags: inline review annotations `<flag:ID>LABEL: COMMENT</flag>` kept in
//! markdown sources. Extraction, id allocation, injection, removal, comment
//! updates and the text report.
use vstd::prelude::*;
use crate::error::PreviewError;
use crate::tags::{
    close_pat, lemma_tags_from_ordered, open_pat, scan_tags, splice, splice_exec, spans,
    tag_comment, tag_id_value, tag_label, tag_text, tags_of, Tag, TagSpan, close_chars,
    open_chars, is_space,
};
use crate::text::{
    chars_to_string, copy_range, decimal, decimal_exec, ends_with_newline, join_lines,
    join_lines_exec, lines_of, occurs_at, parse_digits, push_all, push_str, rejoin, seq_views,
    split_lines, starts_with, str_to_chars,
};
use crate::tags::{ordered_from, well_placed, lemma_tag_at_well_placed, tags_parts, tag_parts, shift_spans, shift_span, lemma_tags_from_shift, lemma_tag_at_shift, lemma_tag_at_window, lemma_tag_at_space, lemma_close_found, lemma_close_shift, lemma_runs_shift, lemma_parts_shift, lemma_splice_shift, lemma_splice_prefix, lemma_ordered_rest, lemma_no_tag_without_angle, lemma_no_tag_without_open, close_after, agree_below, found_by_close, lemma_run_ends, lemma_tags_skip, tag_at, tags_from, tag_id_text, is_word_char, is_id_digit, id_value, space_run_end};
use crate::text::{contains_seq, lemma_decimal_digits, is_digit, decimal_value, lemma_lines_rejoin_cr, resplit, lemma_lines_shape, no_newlines};

verus! {

/// One flag found in a document.
#[derive(Debug, Clone, PartialEq)]
pub struct Flag {
    pub id: u32,
    pub line: usize,
    pub context: String,
    pub label: String,
    pub comment: String,
}

/// The flags of one file.
#[derive(Debug, Clone, PartialEq)]
pub struct FlagReport {
    pub file: String,
    pub flags: Vec<Flag>,
}

/// What a [`Flag`] holds, as mathematical values.
pub struct FlagView {
    pub id: u32,
    pub line: int,
    pub context: Seq<char>,
    pub label: Seq<char>,
    pub comment: Seq<char>,
}

impl View for Flag {
    type V = FlagView;

    open spec fn view(&self) -> FlagView {
        FlagView {
            id: self.id,
            line: self.line as int,
            context: self.context@,
            label: self.label@,
            comment: self.comment@,
        }
    }
}

/// The views of a sequence of flags.
pub open spec fn flag_views(v: Seq<Flag>) -> Seq<FlagView> {
    v.map_values(|f: Flag| f@)
}

/// `n` empty replacement texts.
pub open spec fn no_reps(n: nat) -> Seq<Seq<char>> {
    Seq::new(n, |i: int| Seq::<char>::empty())
}

/// A line with every flag tag cut out.
pub open spec fn strip_tags(line: Seq<char>) -> Seq<char> {
    splice(line, 0, tags_of(line, false), no_reps(tags_of(line, false).len()))
}

/// Whether the tag's id is a valid flag id: it fits a `u32` and is not zero.
pub open spec fn has_valid_id(line: Seq<char>, t: TagSpan) -> bool {
    0 < tag_id_value(line, t) <= u32::MAX
}

/// The flag that tag `t` of line number `n` denotes.
pub open spec fn flag_of(line: Seq<char>, t: TagSpan, n: int) -> FlagView {
    FlagView {
        id: tag_id_value(line, t) as u32,
        line: n,
        context: strip_tags(line),
        label: tag_label(line, t),
        comment: tag_comment(line, t),
    }
}

/// The flags that the given tags of line number `n` denote; tags whose id
/// is zero or does not fit a `u32` are skipped.
pub open spec fn flags_of_tags(line: Seq<char>, tags: Seq<TagSpan>, n: int) -> Seq<FlagView>
    decreases tags.len(),
{
    if tags.len() == 0 {
        seq![]
    } else {
        let rest = flags_of_tags(line, tags.drop_last(), n);
        if has_valid_id(line, tags.last()) {
            rest.push(flag_of(line, tags.last(), n))
        } else {
            rest
        }
    }
}

/// The flags of line number `n`.
pub open spec fn line_flags(line: Seq<char>, n: int) -> Seq<FlagView> {
    flags_of_tags(line, tags_of(line, false), n)
}

/// The flags of the given lines, numbered from 1, in order.
pub open spec fn flags_of_lines(ls: Seq<Seq<char>>) -> Seq<FlagView>
    decreases ls.len(),
{
    if ls.len() == 0 {
        seq![]
    } else {
        flags_of_lines(ls.drop_last()) + line_flags(ls.last(), ls.len() as int)
    }
}

/// All flags of a document, in order of appearance.
pub open spec fn extracted(content: Seq<char>) -> Seq<FlagView> {
    flags_of_lines(lines_of(content))
}

/// The largest id among the flags, or 0.
pub open spec fn max_id(fs: Seq<FlagView>) -> nat
    decreases fs.len(),
{
    if fs.len() == 0 {
        0
    } else {
        let m = max_id(fs.drop_last());
        if fs.last().id > m {
            fs.last().id as nat
        } else {
            m
        }
    }
}

/// Whether some flag has the given id.
pub open spec fn has_flag(fs: Seq<FlagView>, id: u32) -> bool {
    exists|i: int| 0 <= i < fs.len() && #[trigger] fs[i].id == id
}

/// The escaped form of one character of a comment.
pub open spec fn escape_angle(c: char) -> Seq<char> {
    if c == '<' {
        seq!['&', 'l', 't', ';']
    } else if c == '>' {
        seq!['&', 'g', 't', ';']
    } else {
        seq![c]
    }
}

/// A comment with `<` and `>` written as `&lt;` and `&gt;`, so that it can
/// neither close nor open a tag.
pub open spec fn sanitized(s: Seq<char>) -> Seq<char>
    decreases s.len(),
{
    if s.len() == 0 {
        seq![]
    } else {
        sanitized(s.drop_last()) + escape_angle(s.last())
    }
}

/// Whether a line opens or closes a fenced code block (after leading
/// whitespace, it starts with three backticks or three tildes).
pub open spec fn is_fence(line: Seq<char>) -> bool {
    let t = line.subrange(crate::tags::space_run_end(line, 0), line.len() as int);
    starts_with(t, seq!['`', '`', '`']) || starts_with(t, seq!['~', '~', '~'])
}

/// A line is a code fence delimiter exactly when, after its leading
/// whitespace, it starts with three backticks or three tildes: for any run
/// of whitespace `w` followed by text `f` that does not start with
/// whitespace, `w + f` is a fence line exactly when `f` starts with
/// `` ``` `` or `~~~`.
pub proof fn law_fence_after_leading_whitespace(w: Seq<char>, f: Seq<char>)
    requires
        forall|i: int| 0 <= i < w.len() ==> crate::tags::is_space(#[trigger] w[i]),
        f.len() == 0 || !crate::tags::is_space(f[0]),
    ensures
        is_fence(w + f) == (starts_with(f, seq!['`', '`', '`']) || starts_with(f, seq!['~', '~', '~'])),
{
    let l = w + f;
    let n = w.len() as int;
    assert forall|j: int| 0 <= j < n implies crate::tags::is_space(#[trigger] l[j]) by {
        assert(l[j] == w[j]);
    }
    if f.len() > 0 {
        assert(l[n] == f[0]);
        crate::tags::lemma_space_run_exact(l, 0, n);
    } else {
        lemma_run_ends(l, 0);
        let e = space_run_end(l, 0);
        if e < l.len() {
            assert(crate::tags::is_space(l[e]));
        }
    }
    assert(l.subrange(space_run_end(l, 0), l.len() as int) =~= f);
}

/// The text of a flag tag: `<flag:ID>LABEL: COMMENT</flag>`.
pub open spec fn flag_tag(id: nat, label: Seq<char>, comment: Seq<char>) -> Seq<char> {
    open_pat() + decimal(id) + seq!['>'] + label + seq![':', ' '] + comment + close_pat()
}

/// A document with a new flag appended (after a space) to line `line`.
pub open spec fn injected(
    content: Seq<char>,
    line: int,
    id: nat,
    label: Seq<char>,
    comment: Seq<char>,
) -> Seq<char> {
    let ls = lines_of(content);
    rejoin(
        ls.update(line - 1, ls[line - 1] + seq![' '] + flag_tag(id, label, sanitized(comment))),
        ends_with_newline(content),
    )
}

/// The replacement texts that remove the tags with id `id` and keep the rest.
pub open spec fn removal_reps(line: Seq<char>, tags: Seq<TagSpan>, id: u32) -> Seq<Seq<char>> {
    tags.map_values(
        |t: TagSpan|
            if tag_id_value(line, t) == id {
                Seq::<char>::empty()
            } else {
                tag_text(line, t)
            },
    )
}

/// A line without its tags of id `id`.
pub open spec fn removed_line(line: Seq<char>, id: u32) -> Seq<char> {
    splice(line, 0, tags_of(line, false), removal_reps(line, tags_of(line, false), id))
}

/// A document without its tags of id `id`.
pub open spec fn removed(content: Seq<char>, id: u32) -> Seq<char> {
    rejoin(
        lines_of(content).map_values(|l: Seq<char>| removed_line(l, id)),
        ends_with_newline(content),
    )
}

/// The replacement texts that rewrite the tags with id `id`: the comment is
/// replaced, and so is the label when one is given.
pub open spec fn update_reps(
    line: Seq<char>,
    tags: Seq<TagSpan>,
    id: u32,
    comment: Seq<char>,
    label: Option<Seq<char>>,
) -> Seq<Seq<char>> {
    tags.map_values(
        |t: TagSpan|
            if tag_id_value(line, t) == id {
                flag_tag(
                    id as nat,
                    match label {
                        Some(l) => l,
                        None => tag_label(line, t),
                    },
                    comment,
                )
            } else {
                tag_text(line, t)
            },
    )
}

/// A line with its tags of id `id` rewritten.
pub open spec fn updated_line(
    line: Seq<char>,
    id: u32,
    comment: Seq<char>,
    label: Option<Seq<char>>,
) -> Seq<char> {
    splice(line, 0, tags_of(line, false), update_reps(line, tags_of(line, false), id, comment, label))
}

/// A document with its tags of id `id` rewritten to carry `comment`
/// (sanitized) and, when given, `label`.
pub open spec fn updated(
    content: Seq<char>,
    id: u32,
    comment: Seq<char>,
    label: Option<Seq<char>>,
) -> Seq<char> {
    rejoin(
        lines_of(content).map_values(
            |l: Seq<char>| updated_line(l, id, sanitized(comment), label),
        ),
        ends_with_newline(content),
    )
}

/// The message for a line number outside the document.
pub open spec fn out_of_range_detail(line: nat, n: nat) -> Seq<char> {
    "Line "@ + decimal(line) + " is out of range (file has "@ + decimal(n) + " lines)"@
}

/// The message for a missing flag.
pub open spec fn not_found_detail(id: nat) -> Seq<char> {
    "Flag #"@ + decimal(id) + " not found"@
}

/// Whether `e` is the flag error with the given line and message.
pub open spec fn is_flag_error(e: PreviewError, line: usize, detail: Seq<char>) -> bool {
    e matches PreviewError::FlagParse { line: l, detail: d } && l == line && d@ == detail
}

/// `strip_tags` for a line whose tags are known.
fn strip_exec(line: &Vec<char>, tags: &Vec<Tag>) -> (r: Vec<char>)
    requires
        spans(tags@) == tags_of(line@, false),
    ensures
        r@ == strip_tags(line@),
{
    proof {
        lemma_tags_from_ordered(line@, 0, false);
    }
    let mut reps: Vec<Vec<char>> = Vec::new();
    let mut j: usize = 0;
    while j < tags.len()
        invariant
            j <= tags.len(),
            reps.len() == j,
            seq_views(reps@) == no_reps(j as nat),
        decreases tags.len() - j,
    {
        let e: Vec<char> = Vec::new();
        let ghost before = reps@;
        reps.push(e);
        assert(reps@ == before.push(e));
        j = j + 1;
        assert forall|i: int| 0 <= i < j implies #[trigger] seq_views(reps@)[i] == no_reps(
            j as nat,
        )[i] by {
            if i < j - 1 {
                assert(reps@[i] == before[i]);
                assert(seq_views(before)[i] == no_reps((j - 1) as nat)[i]);
            }
        }
        assert(seq_views(reps@) =~= no_reps(j as nat));
    }
    assert(spans(tags@).len() == tags.len());
    splice_exec(line, tags, &reps)
}

/// A `String` holding `s[a..b]`.
fn string_of_range(s: &Vec<char>, a: usize, b: usize) -> (r: String)
    requires
        a <= b <= s.len(),
    ensures
        r@ == s@.subrange(a as int, b as int),
{
    let v = copy_range(s, a, b);
    chars_to_string(&v)
}

proof fn lemma_flags_of_tags_step(line: Seq<char>, tags: Seq<TagSpan>, j: int, n: int)
    requires
        0 <= j < tags.len(),
    ensures
        flags_of_tags(line, tags.take(j + 1), n) == if has_valid_id(line, tags[j]) {
            flags_of_tags(line, tags.take(j), n).push(flag_of(line, tags[j], n))
        } else {
            flags_of_tags(line, tags.take(j), n)
        },
{
    assert(tags.take(j + 1).drop_last() =~= tags.take(j));
    assert(tags.take(j + 1).last() == tags[j]);
}

/// Extracts every flag from markdown content, in order of appearance.
/// Tags whose id is zero or does not fit a `u32` are skipped.
pub fn extract_flags(content: &str) -> (flags: Vec<Flag>)
    ensures
        flag_views(flags@) == extracted(content@),
{
    let chars = str_to_chars(content);
    let lines = split_lines(&chars);
    let ghost ls = seq_views(lines@);
    let mut flags: Vec<Flag> = Vec::new();
    let mut k: usize = 0;
    assert(ls.take(0) =~= Seq::<Seq<char>>::empty());
    while k < lines.len()
        invariant
            ls == seq_views(lines@),
            ls == lines_of(content@),
            k <= lines.len(),
            flag_views(flags@) == flags_of_lines(ls.take(k as int)),
        decreases lines.len() - k,
    {
        let line = &lines[k];
        let tags = scan_tags(line, false);
        let context = strip_exec(line, &tags);
        let context_s = chars_to_string(&context);
        let ghost tag_spans = spans(tags@);
        let ghost before = flag_views(flags@);
        proof {
            lemma_tags_from_ordered(line@, 0, false);
            assert(tag_spans.take(0) =~= Seq::<TagSpan>::empty());
        }
        let mut j: usize = 0;
        while j < tags.len()
            invariant
                tag_spans == spans(tags@),
                tag_spans == tags_of(line@, false),
                crate::tags::ordered_from(line@, 0, tag_spans),
                context_s@ == strip_tags(line@),
                j <= tags.len(),
                k < lines.len(),
                flag_views(flags@) == before + flags_of_tags(
                    line@,
                    tag_spans.take(j as int),
                    k + 1,
                ),
            decreases tags.len() - j,
        {
            let t = tags[j];
            assert(tag_spans[j as int] == t.span());
            assert(crate::tags::well_placed(line@, tag_spans[j as int]));
            proof {
                lemma_flags_of_tags_step(line@, tag_spans, j as int, k + 1);
            }
            match crate::tags::tag_id_exec(line, &t) {
                Some(v) => {
                    if v > 0 {
                        let f = Flag {
                            id: v as u32,
                            line: k + 1,
                            context: context_s.clone(),
                            label: string_of_range(line, t.label_start, t.label_end),
                            comment: string_of_range(line, t.comment_start, t.comment_end),
                        };
                        let ghost mid = flag_views(flags@);
                        flags.push(f);
                        assert(flag_views(flags@) =~= mid.push(f@));
                        assert(f@ == flag_of(line@, t.span(), k + 1));
                    }
                },
                None => {},
            }
            j = j + 1;
        }
        proof {
            assert(tag_spans.take(tags.len() as int) =~= tag_spans);
            assert(ls.take(k + 1).drop_last() =~= ls.take(k as int));
            assert(ls.take(k + 1).last() == line@);
        }
        k = k + 1;
    }
    assert(ls.take(lines.len() as int) =~= ls);
    flags
}

/// The largest flag id in the content, or 0 when it holds no flag.
fn max_flag_id(content: &str) -> (r: u32)
    ensures
        r == max_id(extracted(content@)),
{
    let flags = extract_flags(content);
    let ghost fs = flag_views(flags@);
    let mut m: u32 = 0;
    let mut i: usize = 0;
    assert(fs.take(0) =~= Seq::<FlagView>::empty());
    while i < flags.len()
        invariant
            fs == flag_views(flags@),
            i <= flags.len(),
            m == max_id(fs.take(i as int)),
        decreases flags.len() - i,
    {
        assert(fs.take(i + 1).drop_last() =~= fs.take(i as int));
        assert(fs.take(i + 1).last() == flags[i as int]@);
        if flags[i].id > m {
            m = flags[i].id;
        }
        i = i + 1;
    }
    assert(fs.take(flags.len() as int) =~= fs);
    m
}

/// The next free flag id: one more than the largest id in the content.
pub fn next_flag_id(content: &str) -> (r: u32)
    requires
        max_id(extracted(content@)) < u32::MAX,
    ensures
        r == max_id(extracted(content@)) + 1,
{
    max_flag_id(content) + 1
}

/// What every flag read from the given tags of line `n` satisfies.
pub open spec fn flag_fits_line(f: FlagView, l: Seq<char>, n: int) -> bool {
    &&& f.line == n
    &&& f.id >= 1
    &&& f.context == strip_tags(l)
    &&& f.comment.len() > 0
}

proof fn lemma_flags_of_tags_shape(l: Seq<char>, ts: Seq<TagSpan>, n: int)
    requires
        forall|k: int| 0 <= k < ts.len() ==> well_placed(l, #[trigger] ts[k]),
    ensures
        forall|i: int|
            0 <= i < flags_of_tags(l, ts, n).len() ==> flag_fits_line(
                #[trigger] flags_of_tags(l, ts, n)[i],
                l,
                n,
            ),
    decreases ts.len(),
{
    if ts.len() > 0 {
        let front = ts.drop_last();
        assert forall|k: int| 0 <= k < front.len() implies well_placed(l, #[trigger] front[k]) by {
            assert(front[k] == ts[k]);
        }
        lemma_flags_of_tags_shape(l, front, n);
        let rest = flags_of_tags(l, front, n);
        let t = ts.last();
        assert(well_placed(l, ts[ts.len() - 1]));
        if has_valid_id(l, t) {
            let all = rest.push(flag_of(l, t, n));
            assert forall|i: int| 0 <= i < all.len() implies flag_fits_line(#[trigger] all[i], l, n) by {
                if i < rest.len() {
                    assert(all[i] == rest[i]);
                }
            }
        }
    }
}

/// The flags of lines, in order: their line numbers never go down, and
/// each flag has an id of at least 1, a line number within the lines, the
/// text of its line outside tags as context, and a nonempty comment.
pub open spec fn flags_fit_lines(fs: Seq<FlagView>, ls: Seq<Seq<char>>) -> bool {
    &&& forall|i: int|
        0 <= i < fs.len() ==> 1 <= (#[trigger] fs[i]).line <= ls.len() && flag_fits_line(
            fs[i],
            ls[fs[i].line - 1],
            fs[i].line,
        )
    &&& forall|i: int, j: int| 0 <= i < j < fs.len() ==> (#[trigger] fs[i]).line <= (#[trigger] fs[j]).line
}

proof fn lemma_flags_of_lines_shape(ls: Seq<Seq<char>>)
    ensures
        flags_fit_lines(flags_of_lines(ls), ls),
    decreases ls.len(),
{
    if ls.len() > 0 {
        let front = ls.drop_last();
        let n = ls.len() as int;
        lemma_flags_of_lines_shape(front);
        let l = ls.last();
        lemma_tags_from_ordered(l, 0, false);
        lemma_flags_of_tags_shape(l, tags_of(l, false), n);
        let a = flags_of_lines(front);
        let b = line_flags(l, n);
        let fs = a + b;
        assert(flags_of_lines(ls) == fs);
        assert forall|i: int| 0 <= i < fs.len() implies 1 <= (#[trigger] fs[i]).line <= ls.len()
            && flag_fits_line(fs[i], ls[fs[i].line - 1], fs[i].line) by {
            if i < a.len() {
                assert(fs[i] == a[i]);
                assert(ls[a[i].line - 1] == front[a[i].line - 1]);
            } else {
                assert(fs[i] == b[i - a.len()]);
                assert(ls[n - 1] == l);
            }
        }
        assert forall|i: int, j: int| 0 <= i < j < fs.len() implies (#[trigger] fs[i]).line <= (
        #[trigger] fs[j]).line by {
            if j < a.len() {
                assert(fs[i] == a[i] && fs[j] == a[j]);
            } else if i < a.len() {
                assert(fs[i] == a[i] && fs[j] == b[j - a.len()]);
            } else {
                assert(fs[i] == b[i - a.len()] && fs[j] == b[j - a.len()]);
            }
        }
    }
}

/// The flags that extraction gives come in line order; each has an id of
/// at least 1, the number of a line of the document, that line's text with
/// every tag cut out as context, and a nonempty comment.
pub proof fn law_extracted_flags_fit_lines(content: Seq<char>)
    ensures
        flags_fit_lines(extracted(content), lines_of(content)),
{
    lemma_flags_of_lines_shape(lines_of(content));
}

/// A comment without `<` and `>` is written as it is.
pub proof fn law_sanitize_keeps_plain_text(s: Seq<char>)
    requires
        !s.contains('<'),
        !s.contains('>'),
    ensures
        sanitized(s) == s,
    decreases s.len(),
{
    if s.len() > 0 {
        let f = s.drop_last();
        assert(!f.contains('<')) by {
            if f.contains('<') {
                let j = choose|j: int| 0 <= j < f.len() && f[j] == '<';
                assert(s[j] == '<');
            }
        }
        assert(!f.contains('>')) by {
            if f.contains('>') {
                let j = choose|j: int| 0 <= j < f.len() && f[j] == '>';
                assert(s[j] == '>');
            }
        }
        law_sanitize_keeps_plain_text(f);
        assert(s.last() == s[s.len() - 1]);
        assert(f + seq![s.last()] =~= s);
    }
}

/// Every flag id is at most the largest one.
proof fn lemma_max_id_bounds(fs: Seq<FlagView>)
    ensures
        forall|i: int| 0 <= i < fs.len() ==> (#[trigger] fs[i]).id <= max_id(fs),
    decreases fs.len(),
{
    if fs.len() > 0 {
        lemma_max_id_bounds(fs.drop_last());
        assert forall|i: int| 0 <= i < fs.len() implies (#[trigger] fs[i]).id <= max_id(fs) by {
            if i < fs.len() - 1 {
                assert(fs[i] == fs.drop_last()[i]);
            }
        }
    }
}

/// The id that [`next_flag_id`] gives is free: every flag of the content
/// has a smaller id, so none carries it.
pub proof fn law_next_id_is_fresh(content: Seq<char>)
    requires
        max_id(extracted(content)) < u32::MAX,
    ensures
        forall|i: int|
            0 <= i < extracted(content).len() ==> (#[trigger] extracted(content)[i]).id < max_id(
                extracted(content),
            ) + 1,
        !has_flag(extracted(content), (max_id(extracted(content)) + 1) as u32),
{
    lemma_max_id_bounds(extracted(content));
}

/// Whether a new flag can still get an id: the largest id in the content
/// is below `u32::MAX`.
pub fn has_free_id(content: &str) -> (r: bool)
    ensures
        r == (max_id(extracted(content@)) < u32::MAX),
{
    max_flag_id(content) < u32::MAX
}

/// Escapes `<` and `>` in a comment so that it can neither close the flag
/// tag around it nor inject markup.
fn sanitize_comment(comment: &str) -> (r: Vec<char>)
    ensures
        r@ == sanitized(comment@),
{
    let s = str_to_chars(comment);
    let mut out: Vec<char> = Vec::new();
    let mut i: usize = 0;
    assert(s@.take(0) =~= Seq::<char>::empty());
    while i < s.len()
        invariant
            s@ == comment@,
            i <= s.len(),
            out@ == sanitized(s@.take(i as int)),
        decreases s.len() - i,
    {
        let c = s[i];
        let ghost before = out@;
        if c == '<' {
            out.push('&');
            out.push('l');
            out.push('t');
            out.push(';');
        } else if c == '>' {
            out.push('&');
            out.push('g');
            out.push('t');
            out.push(';');
        } else {
            out.push(c);
        }
        assert(out@ =~= before + escape_angle(c));
        assert(s@.take(i + 1).drop_last() =~= s@.take(i as int));
        assert(s@.take(i + 1).last() == c);
        i = i + 1;
    }
    assert(s@.take(s.len() as int) =~= s@);
    out
}

/// Whether the line is a code fence delimiter (three backticks or three
/// tildes after leading whitespace).
pub fn is_code_fence(line: &Vec<char>) -> (r: bool)
    ensures
        r == is_fence(line@),
{
    let mut j: usize = 0;
    while j < line.len() && crate::tags::is_space_exec(line[j])
        invariant
            j <= line.len(),
            crate::tags::space_run_end(line@, 0) == crate::tags::space_run_end(line@, j as int),
        decreases line.len() - j,
    {
        j = j + 1;
    }
    proof {
        lemma_run_ends(line@, 0);
    }
    let ghost t = line@.subrange(j as int, line.len() as int);
    if line.len() - j >= 3 {
        let a = line[j];
        let b = line[j + 1];
        let c = line[j + 2];
        assert(t[0] == a && t[1] == b && t[2] == c);
        let r = (a == '`' && b == '`' && c == '`') || (a == '~' && b == '~' && c == '~');
        assert(r == (t.subrange(0, 3) =~= seq!['`', '`', '`'] || t.subrange(0, 3) =~= seq![
            '~',
            '~',
            '~',
        ]));
        r
    } else {
        false
    }
}

/// Appends `<flag:ID>LABEL: COMMENT</flag>` to `out`.
fn push_flag_tag(out: &mut Vec<char>, id: u32, label: &Vec<char>, comment: &Vec<char>)
    ensures
        final(out)@ == old(out)@ + flag_tag(id as nat, label@, comment@),
{
    let open = open_chars();
    let close = close_chars();
    let digits = decimal_exec(id as u64);
    push_all(out, &open);
    push_all(out, &digits);
    out.push('>');
    push_all(out, label);
    out.push(':');
    out.push(' ');
    push_all(out, comment);
    push_all(out, &close);
    assert(final(out)@ =~= old(out)@ + flag_tag(id as nat, label@, comment@));
}

/// Builds the flag error with the given line and message.
fn flag_error(line: usize, detail: &Vec<char>) -> (e: PreviewError)
    ensures
        is_flag_error(e, line, detail@),
{
    PreviewError::FlagParse { line, detail: chars_to_string(detail) }
}

/// Joins lines with `\n`, adding a final `\n` when `newline` holds.
fn rejoin_exec(ls: &Vec<Vec<char>>, newline: bool) -> (r: String)
    ensures
        r@ == rejoin(seq_views(ls@), newline),
{
    let mut out = join_lines_exec(ls);
    if newline {
        out.push('\n');
    }
    chars_to_string(&out)
}

/// Whether the text ends with a line feed.
fn ends_with_newline_exec(s: &Vec<char>) -> (r: bool)
    ensures
        r == ends_with_newline(s@),
{
    s.len() > 0 && s[s.len() - 1] == '\n'
}

/// Injects a new flag at the end of line `line` (1-based). The flag gets the
/// next free id, the given label and the sanitized comment.
pub fn inject_flag(content: &str, line: usize, comment: &str, label: &str) -> (r: Result<
    String,
    PreviewError,
>)
    requires
        1 <= line <= lines_of(content@).len() && !is_fence(lines_of(content@)[line - 1])
            ==> max_id(extracted(content@)) < u32::MAX,
    ensures
        ({
            let ls = lines_of(content@);
            match r {
                Ok(s) => {
                    &&& 1 <= line <= ls.len()
                    &&& !is_fence(ls[line - 1])
                    &&& s@ == injected(
                        content@,
                        line as int,
                        max_id(extracted(content@)) + 1,
                        label@,
                        comment@,
                    )
                },
                Err(e) => if line == 0 || line > ls.len() {
                    is_flag_error(e, line, out_of_range_detail(line as nat, ls.len()))
                } else {
                    is_fence(ls[line - 1]) && is_flag_error(
                        e,
                        line,
                        "Cannot inject flag into a code fence delimiter"@,
                    )
                },
            }
        }),
{
    let chars = str_to_chars(content);
    let mut lines = split_lines(&chars);
    let ghost ls = seq_views(lines@);
    if line == 0 || line > lines.len() {
        let mut detail: Vec<char> = Vec::new();
        push_str(&mut detail, "Line ");
        let a = decimal_exec(line as u64);
        push_all(&mut detail, &a);
        push_str(&mut detail, " is out of range (file has ");
        let b = decimal_exec(lines.len() as u64);
        push_all(&mut detail, &b);
        push_str(&mut detail, " lines)");
        return Err(flag_error(line, &detail));
    }
    if is_code_fence(&lines[line - 1]) {
        let mut detail: Vec<char> = Vec::new();
        push_str(&mut detail, "Cannot inject flag into a code fence delimiter");
        return Err(flag_error(line, &detail));
    }
    let clean = sanitize_comment(comment);
    let id = next_flag_id(content);
    let label_chars = str_to_chars(label);
    let old_line = &lines[line - 1];
    let mut target = copy_range(old_line, 0, old_line.len());
    assert(target@ =~= ls[line - 1]);
    target.push(' ');
    push_flag_tag(&mut target, id, &label_chars, &clean);
    let ghost new_line = target@;
    assert(new_line == ls[line - 1] + seq![' '] + flag_tag(
        (max_id(extracted(content@)) + 1) as nat,
        label@,
        sanitized(comment@),
    ));
    lines.set(line - 1, target);
    assert(seq_views(lines@) =~= ls.update(line - 1, new_line));
    let newline = ends_with_newline_exec(&chars);
    Ok(rejoin_exec(&lines, newline))
}

/// Whether some flag of the list has the given id.
fn find_flag(flags: &Vec<Flag>, id: u32) -> (r: bool)
    ensures
        r == has_flag(flag_views(flags@), id),
{
    let mut i: usize = 0;
    while i < flags.len()
        invariant
            i <= flags.len(),
            forall|j: int| 0 <= j < i ==> flags@[j].id != id,
        decreases flags.len() - i,
    {
        if flags[i].id == id {
            assert(flag_views(flags@)[i as int].id == id);
            return true;
        }
        i = i + 1;
    }
    assert forall|j: int| 0 <= j < flag_views(flags@).len() implies #[trigger] flag_views(
        flags@,
    )[j].id != id by {
        assert(flag_views(flags@)[j] == flags@[j]@);
    }
    false
}

/// The flag error for a missing id.
fn not_found_error(id: u32) -> (e: PreviewError)
    ensures
        is_flag_error(e, 0, not_found_detail(id as nat)),
{
    let mut detail: Vec<char> = Vec::new();
    push_str(&mut detail, "Flag #");
    let d = decimal_exec(id as u64);
    push_all(&mut detail, &d);
    push_str(&mut detail, " not found");
    flag_error(0, &detail)
}

/// What to do with the tags of a given id: remove them (`None`), or
/// rewrite them with a comment and, optionally, a new label.
pub open spec fn rewrite_view(rewrite: Option<(&Vec<char>, Option<&Vec<char>>)>) -> Option<
    (Seq<char>, Option<Seq<char>>),
> {
    match rewrite {
        None => None,
        Some((c, l)) => Some(
            (
                c@,
                match l {
                    Some(x) => Some(x@),
                    None => None,
                },
            ),
        ),
    }
}

/// A line with its tags of id `id` removed or rewritten.
pub open spec fn line_rewrite(
    line: Seq<char>,
    id: u32,
    rw: Option<(Seq<char>, Option<Seq<char>>)>,
) -> Seq<char> {
    match rw {
        None => removed_line(line, id),
        Some((c, l)) => updated_line(line, id, c, l),
    }
}

/// The replacement texts that `line_rewrite` splices in.
pub open spec fn rewrite_reps(
    line: Seq<char>,
    tags: Seq<TagSpan>,
    id: u32,
    rw: Option<(Seq<char>, Option<Seq<char>>)>,
) -> Seq<Seq<char>> {
    match rw {
        None => removal_reps(line, tags, id),
        Some((c, l)) => update_reps(line, tags, id, c, l),
    }
}

/// Removes or rewrites the tags of id `id` on one line; other tags and the
/// text around them are kept.
fn rewrite_line(
    line: &Vec<char>,
    id: u32,
    rewrite: Option<(&Vec<char>, Option<&Vec<char>>)>,
) -> (r: Vec<char>)
    ensures
        r@ == line_rewrite(line@, id, rewrite_view(rewrite)),
{
    let tags = scan_tags(line, false);
    proof {
        lemma_tags_from_ordered(line@, 0, false);
    }
    let ghost ts = spans(tags@);
    let ghost want = rewrite_reps(line@, ts, id, rewrite_view(rewrite));
    let mut reps: Vec<Vec<char>> = Vec::new();
    let mut j: usize = 0;
    while j < tags.len()
        invariant
            ts == spans(tags@),
            ts == tags_of(line@, false),
            crate::tags::ordered_from(line@, 0, ts),
            want == rewrite_reps(line@, ts, id, rewrite_view(rewrite)),
            j <= tags.len(),
            reps.len() == j,
            forall|i: int| 0 <= i < j ==> #[trigger] reps@[i]@ == want[i],
        decreases tags.len() - j,
    {
        let t = tags[j];
        assert(ts[j as int] == t.span());
        assert(crate::tags::well_placed(line@, ts[j as int]));
        let matches = match crate::tags::tag_id_exec(line, &t) {
            Some(v) => v == id as u64,
            None => false,
        };
        assert(matches == (tag_id_value(line@, t.span()) == id));
        let rep = if matches {
            match rewrite {
                None => Vec::new(),
                Some((c, l)) => {
                    let mut out: Vec<char> = Vec::new();
                    match l {
                        Some(lab) => push_flag_tag(&mut out, id, lab, c),
                        None => {
                            let lab = copy_range(line, t.label_start, t.label_end);
                            push_flag_tag(&mut out, id, &lab, c);
                        },
                    }
                    out
                },
            }
        } else {
            copy_range(line, t.start, t.end)
        };
        assert(rep@ == want[j as int]);
        let ghost before = reps@;
        reps.push(rep);
        assert(forall|i: int| 0 <= i < j ==> reps@[i] == before[i]);
        j = j + 1;
    }
    assert(seq_views(reps@) =~= want);
    splice_exec(line, &tags, &reps)
}

/// Applies `rewrite_line` to every line and rejoins the document.
fn rewrite_document(
    content: &str,
    id: u32,
    rewrite: Option<(&Vec<char>, Option<&Vec<char>>)>,
) -> (r: String)
    ensures
        r@ == rejoin(
            lines_of(content@).map_values(
                |x: Seq<char>| line_rewrite(x, id, rewrite_view(rewrite)),
            ),
            ends_with_newline(content@),
        ),
{
    let chars = str_to_chars(content);
    let lines = split_lines(&chars);
    let ghost ls = seq_views(lines@);
    let ghost rw = rewrite_view(rewrite);
    let mut out: Vec<Vec<char>> = Vec::new();
    let mut k: usize = 0;
    while k < lines.len()
        invariant
            ls == seq_views(lines@),
            rw == rewrite_view(rewrite),
            k <= lines.len(),
            out.len() == k,
            forall|i: int| 0 <= i < k ==> #[trigger] out@[i]@ == line_rewrite(ls[i], id, rw),
        decreases lines.len() - k,
    {
        let new_line = rewrite_line(&lines[k], id, rewrite);
        assert(lines@[k as int]@ == ls[k as int]);
        let ghost before = out@;
        out.push(new_line);
        assert(forall|i: int| 0 <= i < k ==> out@[i] == before[i]);
        k = k + 1;
    }
    assert(seq_views(out@) =~= ls.map_values(|x: Seq<char>| line_rewrite(x, id, rw)));
    let newline = ends_with_newline_exec(&chars);
    rejoin_exec(&out, newline)
}

/// Removes every flag tag with the given id. Fails when the content holds
/// no flag with that id.
pub fn remove_flag(content: &str, id: u32) -> (r: Result<String, PreviewError>)
    ensures
        match r {
            Ok(s) => has_flag(extracted(content@), id) && s@ == removed(content@, id),
            Err(e) => !has_flag(extracted(content@), id) && is_flag_error(
                e,
                0,
                not_found_detail(id as nat),
            ),
        },
{
    let flags = extract_flags(content);
    if !find_flag(&flags, id) {
        return Err(not_found_error(id));
    }
    let r = rewrite_document(content, id, None);
    assert(lines_of(content@).map_values(
        |x: Seq<char>| line_rewrite(x, id, rewrite_view(None)),
    ) =~= lines_of(content@).map_values(|l: Seq<char>| removed_line(l, id)));
    Ok(r)
}

/// Replaces the comment of every flag tag with the given id (sanitized),
/// keeping its label. Fails when the content holds no flag with that id.
pub fn update_flag_comment(content: &str, id: u32, comment: &str) -> (r: Result<
    String,
    PreviewError,
>)
    ensures
        match r {
            Ok(s) => has_flag(extracted(content@), id) && s@ == updated(
                content@,
                id,
                comment@,
                None,
            ),
            Err(e) => !has_flag(extracted(content@), id) && is_flag_error(
                e,
                0,
                not_found_detail(id as nat),
            ),
        },
{
    update_flag(content, id, comment, None)
}

/// Replaces the comment of every flag tag with the given id (sanitized),
/// and its label when one is given. Fails when the content holds no flag
/// with that id.
pub fn update_flag(content: &str, id: u32, comment: &str, label: Option<&str>) -> (r: Result<
    String,
    PreviewError,
>)
    ensures
        match r {
            Ok(s) => has_flag(extracted(content@), id) && s@ == updated(
                content@,
                id,
                comment@,
                match label {
                    Some(l) => Some(l@),
                    None => None,
                },
            ),
            Err(e) => !has_flag(extracted(content@), id) && is_flag_error(
                e,
                0,
                not_found_detail(id as nat),
            ),
        },
{
    let flags = extract_flags(content);
    if !find_flag(&flags, id) {
        return Err(not_found_error(id));
    }
    let clean = sanitize_comment(comment);
    let ghost lab_view = match label {
        Some(l) => Some(l@),
        None => None,
    };
    let r = match label {
        Some(l) => {
            let lab = str_to_chars(l);
            let r = rewrite_document(content, id, Some((&clean, Some(&lab))));
            assert(lines_of(content@).map_values(
                |x: Seq<char>| line_rewrite(x, id, rewrite_view(Some((&clean, Some(&lab))))),
            ) =~= lines_of(content@).map_values(
                |x: Seq<char>| updated_line(x, id, sanitized(comment@), lab_view),
            ));
            r
        },
        None => {
            let r = rewrite_document(content, id, Some((&clean, None)));
            assert(lines_of(content@).map_values(
                |x: Seq<char>| line_rewrite(x, id, rewrite_view(Some((&clean, None)))),
            ) =~= lines_of(content@).map_values(
                |x: Seq<char>| updated_line(x, id, sanitized(comment@), lab_view),
            ));
            r
        },
    };
    Ok(r)
}

/// The text block for one flag in the human-readable report.
pub open spec fn flag_entry_text(f: FlagView) -> Seq<char> {
    "  #"@ + decimal(f.id as nat) + " (line "@ + decimal(f.line as nat) + "): "@ + f.comment
        + "\n    Context: "@ + f.context + "\n\n"@
}

/// The text blocks of all flags, in order.
pub open spec fn flag_entries_text(fs: Seq<FlagView>) -> Seq<char>
    decreases fs.len(),
{
    if fs.len() == 0 {
        seq![]
    } else {
        flag_entries_text(fs.drop_last()) + flag_entry_text(fs.last())
    }
}

/// The human-readable report: a heading naming the file, then one block per
/// flag, or a note that there are none.
pub open spec fn report_text(file: Seq<char>, fs: Seq<FlagView>) -> Seq<char> {
    "Flags in "@ + file + ":\n\n"@ + if fs.len() == 0 {
        "  No flags found.\n"@
    } else {
        flag_entries_text(fs)
    }
}

/// Formats a flag report as human-readable text.
pub fn format_flags_text(report: &FlagReport) -> (r: String)
    ensures
        r@ == report_text(report.file@, flag_views(report.flags@)),
{
    let mut out: Vec<char> = Vec::new();
    push_str(&mut out, "Flags in ");
    push_str(&mut out, report.file.as_str());
    push_str(&mut out, ":\n\n");
    let ghost head = out@;
    if report.flags.len() == 0 {
        push_str(&mut out, "  No flags found.\n");
        return chars_to_string(&out);
    }
    let ghost fs = flag_views(report.flags@);
    let mut i: usize = 0;
    assert(fs.take(0) =~= Seq::<FlagView>::empty());
    assert(head + flag_entries_text(fs.take(0)) =~= head);
    while i < report.flags.len()
        invariant
            fs == flag_views(report.flags@),
            i <= report.flags.len(),
            out@ == head + flag_entries_text(fs.take(i as int)),
        decreases report.flags.len() - i,
    {
        let f = &report.flags[i];
        let ghost before = out@;
        push_str(&mut out, "  #");
        let d = decimal_exec(f.id as u64);
        push_all(&mut out, &d);
        push_str(&mut out, " (line ");
        let l = decimal_exec(f.line as u64);
        push_all(&mut out, &l);
        push_str(&mut out, "): ");
        push_str(&mut out, f.comment.as_str());
        push_str(&mut out, "\n    Context: ");
        push_str(&mut out, f.context.as_str());
        push_str(&mut out, "\n\n");
        assert(fs.take(i + 1).drop_last() =~= fs.take(i as int));
        assert(fs.take(i + 1).last() == f@);
        assert(out@ =~= before + flag_entry_text(f@));
        i = i + 1;
    }
    assert(fs.take(report.flags.len() as int) =~= fs);
    chars_to_string(&out)
}

proof fn lemma_sanitized_chars(c: Seq<char>)
    ensures
        forall|k: int|
            0 <= k < sanitized(c).len() ==> #[trigger] sanitized(c)[k] != '<' && sanitized(c)[k]
                != '>',
        !c.contains('\n') ==> !sanitized(c).contains('\n'),
    decreases c.len(),
{
    if c.len() > 0 {
        let d = c.drop_last();
        lemma_sanitized_chars(d);
        let a = sanitized(d);
        let e = escape_angle(c.last());
        assert(sanitized(c) == a + e);
        assert forall|k: int| 0 <= k < sanitized(c).len() implies #[trigger] sanitized(c)[k]
            != '<' && sanitized(c)[k] != '>' by {
            if k < a.len() {
                assert(sanitized(c)[k] == a[k]);
            } else {
                assert(sanitized(c)[k] == e[k - a.len()]);
            }
        }
        if !c.contains('\n') {
            assert(!d.contains('\n')) by {
                if d.contains('\n') {
                    let j = choose|j: int| 0 <= j < d.len() && d[j] == '\n';
                    assert(c[j] == '\n');
                }
            }
            assert(c[c.len() - 1] != '\n');
            assert(!sanitized(c).contains('\n')) by {
                if sanitized(c).contains('\n') {
                    let j = choose|j: int| 0 <= j < sanitized(c).len() && sanitized(c)[j] == '\n';
                    if j < a.len() {
                        assert(a[j] == '\n');
                    } else {
                        assert(e[j - a.len()] == '\n');
                    }
                }
            }
        }
    }
}

/// Where the parts of `x + " " + tag` lie.
proof fn lemma_new_line_layout(x: Seq<char>, id: nat, label: Seq<char>, com: Seq<char>)
    ensures
        ({
            let s = x + seq![' '] + flag_tag(id, label, com);
            let d = decimal(id);
            let a: int = x.len() as int + 1;
            let d1: int = a + 6 + d.len();
            let l1: int = d1 + 1 + label.len();
            let cc: int = l1 + 2 + com.len();
            &&& s.len() == cc + 7
            &&& s.subrange(0, x.len() as int) == x
            &&& s[x.len() as int] == ' '
            &&& s.subrange(a, a + 6) == open_pat()
            &&& s.subrange(a + 6, d1) == d
            &&& s[d1] == '>'
            &&& s.subrange(d1 + 1, l1) == label
            &&& s[l1] == ':'
            &&& s[l1 + 1] == ' '
            &&& s.subrange(l1 + 2, cc) == com
            &&& s.subrange(cc, cc + 7) == close_pat()
        }),
{
    let s = x + seq![' '] + flag_tag(id, label, com);
    let d = decimal(id);
    let a: int = x.len() as int + 1;
    let d1: int = a + 6 + d.len();
    let l1: int = d1 + 1 + label.len();
    let cc: int = l1 + 2 + com.len();
    assert(s.subrange(0, x.len() as int) =~= x);
    assert(s.subrange(a, a + 6) =~= open_pat());
    assert(s.subrange(a + 6, d1) =~= d);
    assert(s.subrange(d1 + 1, l1) =~= label);
    assert(s.subrange(l1 + 2, cc) =~= com);
    assert(s.subrange(cc, cc + 7) =~= close_pat());
}

/// The tag that a well-formed tag text yields.
proof fn lemma_tag_of_parts(
    s: Seq<char>,
    a: int,
    d: Seq<char>,
    label: Seq<char>,
    com: Seq<char>,
)
    requires
        0 <= a,
        d.len() > 0,
        forall|k: int| 0 <= k < d.len() ==> is_digit(#[trigger] d[k]),
        label.len() > 0,
        forall|k: int| 0 <= k < label.len() ==> is_word_char(#[trigger] label[k]),
        forall|k: int| 0 <= k < com.len() ==> #[trigger] com[k] != '<' && com[k] != '\n',
        space_run_end(com, 0) < com.len(),
        s.len() == a + 6 + d.len() + 1 + label.len() + 2 + com.len() + 7,
        s.subrange(a, a + 6) == open_pat(),
        s.subrange(a + 6, a + 6 + d.len()) == d,
        s[a + 6 + d.len()] == '>',
        s.subrange(a + 7 + d.len(), a + 7 + d.len() + label.len()) == label,
        s[a + 7 + d.len() + label.len()] == ':',
        s[a + 8 + d.len() + label.len()] == ' ',
        s.subrange(a + 9 + d.len() + label.len(), a + 9 + d.len() + label.len() + com.len())
            == com,
        s.subrange(s.len() - 7, s.len() as int) == close_pat(),
    ensures
        tag_at(s, a, false) == Some(
            TagSpan {
                start: a,
                id_start: a + 6,
                id_end: a + 6 + d.len(),
                label_start: a + 7 + d.len(),
                label_end: a + 7 + d.len() + label.len(),
                comment_start: a + 9 + d.len() + label.len() + space_run_end(com, 0),
                comment_end: s.len() - 7,
                end: s.len() as int,
            },
        ),
        found_by_close(s, tag_at(s, a, false)->0),
{
    reveal(tag_at);
    let d0 = a + 6;
    let d1 = d0 + d.len();
    let l0 = d1 + 1;
    let l1 = l0 + label.len();
    let p = l1 + 1;
    let c0 = p + 1;
    let w = space_run_end(com, 0);
    let q = c0 + w;
    let cc = c0 + com.len();
    assert forall|j: int| d0 <= j < d1 implies is_digit(#[trigger] s[j]) by {
        assert(s.subrange(d0, d1)[j - d0] == s[j]);
    }
    crate::tags::lemma_digit_run_exact(s, d0, d1);
    assert forall|j: int| l0 <= j < l1 implies is_word_char(#[trigger] s[j]) by {
        assert(s.subrange(l0, l1)[j - l0] == s[j]);
    }
    crate::tags::lemma_word_run_exact(s, l0, l1);
    lemma_run_ends(com, 0);
    assert forall|j: int| p <= j < q implies is_space(#[trigger] s[j]) by {
        if j > p {
            assert(s.subrange(c0, cc)[j - c0] == s[j]);
        }
    }
    assert(s[q] == com[w]) by {
        assert(s.subrange(c0, cc)[w] == s[q]);
    }
    crate::tags::lemma_space_run_exact(s, p, q);
    assert forall|j: int| q + 1 <= j < cc implies s[j] != '\n' && s[j] != '<' by {
        assert(s.subrange(c0, cc)[j - c0] == s[j]);
    }
    assert(occurs_at(s, cc, close_pat()));
    crate::tags::lemma_close_exact(s, q + 1, cc);
    assert(occurs_at(s, a, open_pat()));
}

/// The flags of lines `a..b`, numbered by their position.
pub open spec fn flags_range(ls: Seq<Seq<char>>, a: int, b: int) -> Seq<FlagView>
    decreases b - a,
{
    if b <= a {
        seq![]
    } else {
        flags_range(ls, a, b - 1) + line_flags(ls[b - 1], b)
    }
}

proof fn lemma_flags_split(ls: Seq<Seq<char>>, a: int, b: int)
    requires
        0 <= a <= b <= ls.len(),
    ensures
        flags_of_lines(ls.take(b)) == flags_of_lines(ls.take(a)) + flags_range(ls, a, b),
    decreases b - a,
{
    if b > a {
        lemma_flags_split(ls, a, b - 1);
        assert(ls.take(b).drop_last() =~= ls.take(b - 1));
        assert(ls.take(b).last() == ls[b - 1]);
        assert(flags_of_lines(ls.take(b)) =~= flags_of_lines(ls.take(a)) + flags_range(ls, a, b));
    } else {
        assert(flags_of_lines(ls.take(b)) =~= flags_of_lines(ls.take(a)) + flags_range(ls, a, b));
    }
}

proof fn lemma_flags_range_front(ls: Seq<Seq<char>>, a: int, b: int)
    requires
        0 <= a < b <= ls.len(),
    ensures
        flags_range(ls, a, b) == line_flags(ls[a], a + 1) + flags_range(ls, a + 1, b),
{
    lemma_flags_split(ls, a, b);
    lemma_flags_split(ls, a + 1, b);
    lemma_flags_split(ls, a, a + 1);
    assert(flags_range(ls, a, a) == Seq::<FlagView>::empty());
    assert(flags_range(ls, a, a + 1) =~= line_flags(ls[a], a + 1));
    let p = flags_of_lines(ls.take(a));
    let whole = flags_of_lines(ls.take(b));
    assert(whole == p + flags_range(ls, a, b));
    assert(whole == p + line_flags(ls[a], a + 1) + flags_range(ls, a + 1, b));
    assert(whole.skip(p.len() as int) =~= flags_range(ls, a, b));
    assert(whole.skip(p.len() as int) =~= line_flags(ls[a], a + 1) + flags_range(ls, a + 1, b));
}

proof fn lemma_flags_range_same(l1: Seq<Seq<char>>, l2: Seq<Seq<char>>, a: int, b: int)
    requires
        0 <= a <= b <= l1.len(),
        b <= l2.len(),
        forall|k: int| a <= k < b ==> l1[k] == l2[k],
    ensures
        flags_range(l1, a, b) == flags_range(l2, a, b),
    decreases b - a,
{
    if b > a {
        lemma_flags_range_same(l1, l2, a, b - 1);
    }
}


/// The new line holds no line feed and ends with `>`.
proof fn lemma_new_line_clean(x: Seq<char>, id: nat, label: Seq<char>, com: Seq<char>)
    requires
        !x.contains('\n'),
        forall|k: int| 0 <= k < label.len() ==> is_word_char(#[trigger] label[k]),
        forall|k: int| 0 <= k < com.len() ==> #[trigger] com[k] != '\n',
    ensures
        !(x + seq![' '] + flag_tag(id, label, com)).contains('\n'),
        (x + seq![' '] + flag_tag(id, label, com)).last() == '>',
{
    let s = x + seq![' '] + flag_tag(id, label, com);
    let d = decimal(id);
    lemma_decimal_digits(id);
    lemma_new_line_layout(x, id, label, com);
    let a: int = x.len() as int + 1;
    let d1: int = a + 6 + d.len();
    let l1: int = d1 + 1 + label.len();
    let cc: int = l1 + 2 + com.len();
    assert forall|k: int| 0 <= k < s.len() implies s[k] != '\n' by {
        if k < x.len() {
            assert(s.subrange(0, x.len() as int)[k] == s[k]);
            if s[k] == '\n' {
                assert(x.contains('\n'));
            }
        } else if a <= k < a + 6 {
            assert(s.subrange(a, a + 6)[k - a] == s[k]);
        } else if a + 6 <= k < d1 {
            assert(s.subrange(a + 6, d1)[k - a - 6] == s[k]);
            assert(is_digit(d[k - a - 6]));
        } else if d1 + 1 <= k < l1 {
            assert(s.subrange(d1 + 1, l1)[k - d1 - 1] == s[k]);
            assert(is_word_char(label[k - d1 - 1]));
        } else if l1 + 2 <= k < cc {
            assert(s.subrange(l1 + 2, cc)[k - l1 - 2] == s[k]);
        } else if cc <= k {
            assert(s.subrange(cc, cc + 7)[k - cc] == s[k]);
        }
    }
    assert(s.subrange(cc, cc + 7)[6] == s.last());
}

/// The flags, with those of line `n` given the context `ctx`.
pub open spec fn with_line_context(fs: Seq<FlagView>, n: int, ctx: Seq<char>) -> Seq<FlagView> {
    fs.map_values(
        |f: FlagView|
            if f.line == n {
                FlagView { id: f.id, line: f.line, context: ctx, label: f.label, comment: f.comment }
            } else {
                f
            },
    )
}

/// Flags read from parts with one context, given another, are those read
/// with the other.
proof fn lemma_flags_of_parts_context(
    cs: Seq<(Seq<char>, Seq<char>, Seq<char>)>,
    ctx0: Seq<char>,
    ctx: Seq<char>,
    n: int,
)
    ensures
        with_line_context(flags_of_parts(cs, ctx0, n), n, ctx) == flags_of_parts(cs, ctx, n),
    decreases cs.len(),
{
    if cs.len() > 0 {
        lemma_flags_of_parts_context(cs.drop_last(), ctx0, ctx, n);
    }
    assert(with_line_context(flags_of_parts(cs, ctx0, n), n, ctx) =~= flags_of_parts(cs, ctx, n));
}

/// Every flag of a line carries that line's number.
proof fn lemma_flags_of_tags_line(l: Seq<char>, ts: Seq<TagSpan>, n: int)
    ensures
        forall|i: int|
            0 <= i < flags_of_tags(l, ts, n).len() ==> (#[trigger] flags_of_tags(l, ts, n)[i]).line
                == n,
    decreases ts.len(),
{
    if ts.len() > 0 {
        lemma_flags_of_tags_line(l, ts.drop_last(), n);
        let rest = flags_of_tags(l, ts.drop_last(), n);
        if has_valid_id(l, ts.last()) {
            let all = rest.push(flag_of(l, ts.last(), n));
            assert forall|i: int| 0 <= i < all.len() implies (#[trigger] all[i]).line == n by {
                if i < rest.len() {
                    assert(all[i] == rest[i]);
                }
            }
        }
    }
}

/// The flags of lines `a..b` carry line numbers above `a` and up to `b`.
proof fn lemma_flags_range_lines(ls: Seq<Seq<char>>, a: int, b: int)
    ensures
        forall|i: int|
            0 <= i < flags_range(ls, a, b).len() ==> a < (#[trigger] flags_range(ls, a, b)[i]).line
                <= b,
    decreases b - a,
{
    if b > a {
        lemma_flags_range_lines(ls, a, b - 1);
        lemma_flags_of_tags_line(ls[b - 1], tags_of(ls[b - 1], false), b);
        let f = flags_range(ls, a, b - 1);
        let g = line_flags(ls[b - 1], b);
        assert forall|i: int| 0 <= i < (f + g).len() implies a < (#[trigger] (f + g)[i]).line <= b by {
            if i >= f.len() {
                assert((f + g)[i] == g[i - f.len()]);
            }
        }
    }
}

/// Giving line `n` a context leaves flags of other lines as they are.
proof fn lemma_context_elsewhere(fs: Seq<FlagView>, n: int, ctx: Seq<char>)
    requires
        forall|i: int| 0 <= i < fs.len() ==> (#[trigger] fs[i]).line != n,
    ensures
        with_line_context(fs, n, ctx) == fs,
{
    assert(with_line_context(fs, n, ctx) =~= fs);
}

/// Appending a space and a well-formed tag to a line whose text outside
/// tags holds no `<flag:` and whose tags end at their own `</flag>`: the
/// line keeps its flags, now with the longer context, and gains the new one.
proof fn lemma_line_append(x: Seq<char>, id: nat, label: Seq<char>, com: Seq<char>, n: int)
    requires
        0 < id <= u32::MAX,
        !x.contains('\n'),
        !contains_seq(strip_tags(x), open_pat()),
        forall|k: int|
            0 <= k < tags_of(x, false).len() ==> found_by_close(x, #[trigger] tags_of(x, false)[k]),
        fit_label(label),
        forall|k: int| 0 <= k < com.len() ==> #[trigger] com[k] != '<' && com[k] != '\n',
    ensures
        line_flags(x + seq![' '] + flag_tag(id, label, com), n) == with_line_context(
            line_flags(x, n),
            n,
            strip_tags(x) + seq![' '],
        ).push(
            FlagView {
                id: id as u32,
                line: n,
                context: strip_tags(x) + seq![' '],
                label: label,
                comment: read_back_comment(com),
            },
        ),
{
    let nt = flag_tag(id, label, com);
    let tail = seq![' '] + nt;
    let o = x + tail;
    let e = Seq::<char>::empty();
    assert(x.subrange(0, x.len() as int) =~= x);
    assert(x + seq![' '] + nt =~= o);
    lemma_append_scan(x, 0, tail);
    lemma_gap_parts(seq![' '], nt);
    if space_run_end(com, 0) < com.len() {
        lemma_new_tag_parts(id, label, com, e);
        assert(nt + e =~= nt);
        assert(tags_of(e, false) == Seq::<TagSpan>::empty());
        assert(tags_parts(e, tags_of(e, false)) =~= Seq::<(Seq<char>, Seq<char>, Seq<char>)>::empty());
        assert(strip_tags(e) =~= e);
    } else {
        lemma_run_ends(com, 0);
        assert(!com.contains('\n'));
        lemma_blank_tag_parts(id, label, com);
    }
    let np = (decimal(id), label, read_back_comment(com));
    assert(tags_parts(tail, tags_of(tail, false)) =~= seq![np]);
    assert(strip_tags(tail) =~= seq![' ']);
    let cs = tags_parts(x, tags_of(x, false));
    let ctx = strip_tags(x) + seq![' '];
    assert(tags_parts(o, tags_of(o, false)) == cs + seq![np]);
    assert(strip_tags(o) == ctx);
    lemma_flags_of_tags_parts(o, tags_of(o, false), n);
    lemma_flags_of_tags_parts(x, tags_of(x, false), n);
    lemma_flags_of_parts_context(cs, strip_tags(x), ctx, n);
    lemma_decimal_digits(id);
    assert((cs + seq![np]).drop_last() =~= cs);
    assert((cs + seq![np]).last() == np);
}

/// A line without tag openings has no flags.
proof fn lemma_no_open_no_flags(x: Seq<char>, n: int)
    requires
        !contains_seq(x, open_pat()),
    ensures
        line_flags(x, n) == Seq::<FlagView>::empty(),
{
    reveal(tag_at);
    assert forall|j: int| 0 <= j < x.len() implies tag_at(x, j, false) is None by {
        if occurs_at(x, j, open_pat()) {
            assert(contains_seq(x, open_pat()));
        }
    }
    lemma_tags_skip(x, 0, x.len() as int, false);
    assert(tags_of(x, false) == Seq::<TagSpan>::empty());
}

/// Lines with the same flags, line by line, have the same flags.
proof fn lemma_flags_pointwise(l1: Seq<Seq<char>>, l2: Seq<Seq<char>>)
    requires
        l1.len() == l2.len(),
        forall|k: int| 0 <= k < l1.len() ==> line_flags(#[trigger] l1[k], k + 1) == line_flags(l2[k], k + 1),
    ensures
        flags_of_lines(l1) == flags_of_lines(l2),
    decreases l1.len(),
{
    if l1.len() > 0 {
        let a = l1.drop_last();
        let b = l2.drop_last();
        assert forall|k: int| 0 <= k < a.len() implies line_flags(#[trigger] a[k], k + 1) == line_flags(
            b[k],
            k + 1,
        ) by {
            assert(a[k] == l1[k]);
            assert(b[k] == l2[k]);
        }
        lemma_flags_pointwise(a, b);
        assert(l1.last() == l1[l1.len() - 1]);
        assert(l2.last() == l2[l2.len() - 1]);
    }
}

/// Each line that a line feed follows and that ends with a carriage return
/// (which splitting the joined lines again drops) holds no tag opening.
pub open spec fn cr_lines_unflagged(ls: Seq<Seq<char>>, nl: bool) -> bool {
    forall|k: int|
        0 <= k < ls.len() && (k < ls.len() - 1 || nl) && (#[trigger] ls[k]).len() > 0 && ls[k].last()
            == '\r' ==> !contains_seq(ls[k], open_pat())
}

/// Splitting a rejoined document again keeps its flags, when the lines
/// that lose a carriage return hold no tag opening.
proof fn lemma_flags_resplit(ls: Seq<Seq<char>>, nl: bool)
    requires
        cr_lines_unflagged(ls, nl),
    ensures
        flags_of_lines(crate::text::resplit(ls, nl)) == flags_of_lines(ls),
{
    let l2 = crate::text::resplit(ls, nl);
    assert forall|k: int| 0 <= k < l2.len() implies line_flags(#[trigger] l2[k], k + 1) == line_flags(
        ls[k],
        k + 1,
    ) by {
        let l = ls[k];
        if l2[k] != l {
            assert(l.len() > 0 && l.last() == '\r');
            assert(l2[k] == l.drop_last());
            assert(!contains_seq(l.drop_last(), open_pat())) by {
                if contains_seq(l.drop_last(), open_pat()) {
                    let i = choose|i: int| occurs_at(l.drop_last(), i, open_pat());
                    assert(l.subrange(i, i + 6) =~= l.drop_last().subrange(i, i + 6));
                    assert(occurs_at(l, i, open_pat()));
                }
            }
            lemma_no_open_no_flags(l, k + 1);
            lemma_no_open_no_flags(l.drop_last(), k + 1);
        }
    }
    lemma_flags_pointwise(l2, ls);
}

/// Injecting a flag, then extracting the flags, gives the flags that were
/// there with exactly one more: the new flag, placed after the flags of
/// the target line and of the lines before it. It carries the next free
/// id, the target line number, the given label, the sanitized comment
/// without its leading whitespace, and as context the target line's text
/// outside tags followed by a space; the target line's other flags take
/// that same context, and all other flags stay as they were.
///
/// This holds when the target line's text outside tags holds no tag
/// opening `<flag:` and each of its tags ends at its own `</flag>` (its
/// comment is not just the whitespace before an immediate `</flag>`), no
/// other line that ends with a carriage return and is followed by a line
/// feed (which splitting the document again drops) holds `<flag:`, the
/// label is a nonempty run of word
/// characters, and the comment holds no line feed. A comment that is all
/// whitespace reads back as its last whitespace character (or the space
/// after the label's colon, when it is empty).
pub proof fn law_inject_then_extract(
    content: Seq<char>,
    line: int,
    label: Seq<char>,
    comment: Seq<char>,
)
    requires
        1 <= line <= lines_of(content).len(),
        max_id(extracted(content)) < u32::MAX,
        !contains_seq(strip_tags(lines_of(content)[line - 1]), open_pat()),
        forall|k: int|
            0 <= k < tags_of(lines_of(content)[line - 1], false).len() ==> found_by_close(
                lines_of(content)[line - 1],
                #[trigger] tags_of(lines_of(content)[line - 1], false)[k],
            ),
        forall|k: int|
            0 <= k < lines_of(content).len() && k != line - 1 && (k < lines_of(content).len() - 1
                || ends_with_newline(content)) && (#[trigger] lines_of(content)[k]).len() > 0
                && lines_of(content)[k].last() == '\r' ==> !contains_seq(
                lines_of(content)[k],
                open_pat(),
            ),
        fit_label(label),
        !comment.contains('\n'),
    ensures
        extracted(injected(content, line, max_id(extracted(content)) + 1, label, comment))
            == with_line_context(
            extracted(content),
            line,
            strip_tags(lines_of(content)[line - 1]) + seq![' '],
        ).insert(
            flags_of_lines(lines_of(content).take(line)).len() as int,
            FlagView {
                id: (max_id(extracted(content)) + 1) as u32,
                line: line,
                context: strip_tags(lines_of(content)[line - 1]) + seq![' '],
                label: label,
                comment: read_back_comment(sanitized(comment)),
            },
        ),
{
    let ls = lines_of(content);
    let id = max_id(extracted(content)) + 1;
    let x = ls[line - 1];
    let com = sanitized(comment);
    let new_line = x + seq![' '] + flag_tag(id, label, com);
    let ls2 = ls.update(line - 1, new_line);
    let nl = ends_with_newline(content);
    let ctx = strip_tags(x) + seq![' '];
    lemma_lines_shape(content, 0);
    lemma_sanitized_chars(comment);
    assert forall|k: int| 0 <= k < com.len() implies #[trigger] com[k] != '<' && com[k]
        != '\n' by {
        if com[k] == '\n' {
            assert(com.contains('\n'));
        }
    }
    assert(!x.contains('\n'));
    lemma_new_line_clean(x, id, label, com);
    lemma_line_append(x, id, label, com, line);
    // The lines survive rejoining.
    assert(no_newlines(ls2)) by {
        assert forall|k: int| 0 <= k < ls2.len() implies !(#[trigger] ls2[k]).contains('\n') by {
            if k != line - 1 {
                assert(ls2[k] == ls[k]);
            }
        }
    }
    assert forall|k: int| 0 <= k < ls2.len() && (k < ls2.len() - 1 || nl) && (#[trigger] ls2[
        k
    ]).len() > 0 && ls2[k].last() == '\r' implies !contains_seq(ls2[k], open_pat()) by {
        if k != line - 1 {
            assert(ls2[k] == ls[k]);
        }
    }
    if !nl {
        if line - 1 != ls.len() - 1 {
            assert(ls2.last() == ls.last());
        }
    }
    lemma_lines_rejoin_cr(ls2, nl);
    assert(lines_of(injected(content, line, id, label, comment)) == resplit(ls2, nl));
    lemma_flags_resplit(ls2, nl);
    // Split the flags around the target line.
    let n = ls.len() as int;
    lemma_flags_split(ls, line - 1, n);
    lemma_flags_split(ls2, line - 1, n);
    lemma_flags_split(ls, 0, line - 1);
    lemma_flags_split(ls, line - 1, line);
    lemma_flags_range_front(ls, line - 1, n);
    lemma_flags_range_front(ls2, line - 1, n);
    lemma_flags_range_same(ls, ls2, line, n);
    assert(flags_range(ls, line - 1, line - 1) == Seq::<FlagView>::empty());
    assert(flags_range(ls, line - 1, line) =~= line_flags(x, line));
    assert(ls2.take(line - 1) =~= ls.take(line - 1));
    assert(ls.take(0) =~= Seq::<Seq<char>>::empty());
    assert(ls.take(n) =~= ls);
    assert(ls2.take(n) =~= ls2);
    let p = flags_of_lines(ls.take(line - 1));
    let lf = line_flags(x, line);
    let r = flags_range(ls, line, n);
    assert(p =~= flags_range(ls, 0, line - 1));
    lemma_flags_range_lines(ls, 0, line - 1);
    lemma_flags_range_lines(ls, line, n);
    lemma_context_elsewhere(p, line, ctx);
    lemma_context_elsewhere(r, line, ctx);
    let f = FlagView {
        id: id as u32,
        line: line,
        context: ctx,
        label: label,
        comment: read_back_comment(com),
    };
    let lf2 = with_line_context(lf, line, ctx);
    assert(extracted(content) == p + lf + r) by {
        assert(extracted(content) == flags_of_lines(ls.take(n)));
        assert(p + (lf + r) =~= p + lf + r);
    }
    assert(extracted(injected(content, line, id, label, comment)) == p + lf2.push(f) + r) by {
        assert(flags_of_lines(ls2) == flags_of_lines(ls2.take(n)));
        assert(extracted(injected(content, line, id, label, comment)) == flags_of_lines(ls2));
        assert(p + (lf2.push(f) + r) =~= p + lf2.push(f) + r);
    }
    assert(with_line_context(p + lf + r, line, ctx) =~= with_line_context(p, line, ctx)
        + with_line_context(lf, line, ctx) + with_line_context(r, line, ctx));
    assert(flags_of_lines(ls.take(line)) == p + lf);
    assert((p + lf2 + r).insert((p + lf).len() as int, f) =~= p + lf2.push(f) + r);
}

/// The text is empty or does not end with a line feed.
pub open spec fn no_final_newline(x: Seq<char>) -> bool {
    x.len() == 0 || x.last() != '\n'
}

proof fn lemma_concat_no_final_newline(a: Seq<char>, b: Seq<char>)
    requires
        no_final_newline(a),
        no_final_newline(b),
    ensures
        no_final_newline(a + b),
{
    if b.len() > 0 {
        assert((a + b).last() == b.last());
    } else {
        assert(a + b =~= a);
    }
}

proof fn lemma_piece_no_final_newline(s: Seq<char>, a: int, b: int)
    requires
        0 <= a <= b <= s.len(),
        !s.contains('\n'),
    ensures
        no_final_newline(s.subrange(a, b)),
{
    if a < b {
        assert(s.subrange(a, b).last() == s[b - 1]);
        if s[b - 1] == '\n' {
            assert(s.contains('\n'));
        }
    }
}

/// Splicing pieces that do not end with a line feed into a text without
/// line feeds gives a text that does not end with one either.
proof fn lemma_splice_no_final_newline(
    s: Seq<char>,
    pos: int,
    tags: Seq<TagSpan>,
    reps: Seq<Seq<char>>,
)
    requires
        ordered_from(s, pos, tags),
        reps.len() == tags.len(),
        !s.contains('\n'),
        forall|k: int| 0 <= k < reps.len() ==> no_final_newline(#[trigger] reps[k]),
    ensures
        no_final_newline(splice(s, pos, tags, reps)),
    decreases tags.len(),
{
    if tags.len() == 0 {
        lemma_piece_no_final_newline(s, pos, s.len() as int);
    } else {
        let t = tags[0];
        let rest = tags.drop_first();
        let rest_reps = reps.drop_first();
        assert(well_placed(s, t));
        assert(ordered_from(s, t.end, rest)) by {
            assert forall|k: int| 0 <= k < rest.len() implies well_placed(s, #[trigger] rest[k]) by {
                assert(rest[k] == tags[k + 1]);
            }
            if rest.len() > 0 {
                assert(tags[0].end <= tags[1].start);
            }
            assert forall|k: int| 0 <= k < rest.len() - 1 implies #[trigger] rest[k].end
                <= rest[k + 1].start by {
                assert(rest[k] == tags[k + 1]);
                assert(rest[k + 1] == tags[k + 2]);
                assert(tags[k + 1].end <= tags[k + 2].start);
            }
        }
        assert forall|k: int| 0 <= k < rest_reps.len() implies no_final_newline(
            #[trigger] rest_reps[k],
        ) by {
            assert(rest_reps[k] == reps[k + 1]);
        }
        lemma_splice_no_final_newline(s, t.end, rest, rest_reps);
        lemma_piece_no_final_newline(s, pos, t.start);
        assert(no_final_newline(reps[0]));
        lemma_concat_no_final_newline(s.subrange(pos, t.start), reps[0]);
        lemma_concat_no_final_newline(
            s.subrange(pos, t.start) + reps[0],
            splice(s, t.end, rest, rest_reps),
        );
    }
}

/// Joined lines end with a line feed exactly when one is added, provided
/// that otherwise the last line is neither empty nor ends with a line feed.
proof fn lemma_rejoin_final_newline(ls: Seq<Seq<char>>, nl: bool)
    requires
        !nl ==> ls.len() > 0 && ls.last().len() > 0 && ls.last().last() != '\n',
    ensures
        ends_with_newline(rejoin(ls, nl)) == nl,
{
    if !nl {
        if ls.len() == 1 {
            assert(join_lines(ls) == ls[0]);
        } else {
            let j = join_lines(ls.drop_last()) + seq!['\n'] + ls.last();
            assert(j.last() == ls.last().last());
        }
    }
}

proof fn lemma_flag_tag_last(id: nat, label: Seq<char>, comment: Seq<char>)
    ensures
        flag_tag(id, label, comment).len() > 0,
        flag_tag(id, label, comment).last() == '>',
{
    let t = flag_tag(id, label, comment);
    let c = close_pat();
    assert(t == (open_pat() + decimal(id) + seq!['>'] + label + seq![':', ' '] + comment) + c);
    assert(t.last() == c.last());
}

/// Text without line feeds, with the tags of a line rewritten for an
/// update, neither is empty (if the line is not) nor ends with a line feed.
proof fn lemma_updated_line_shape(
    line: Seq<char>,
    id: u32,
    comment: Seq<char>,
    label: Option<Seq<char>>,
)
    requires
        !line.contains('\n'),
    ensures
        no_final_newline(updated_line(line, id, comment, label)),
        line.len() > 0 ==> updated_line(line, id, comment, label).len() > 0,
{
    let tags = tags_of(line, false);
    let reps = update_reps(line, tags, id, comment, label);
    lemma_tags_from_ordered(line, 0, false);
    assert forall|k: int| 0 <= k < reps.len() implies no_final_newline(#[trigger] reps[k])
        && reps[k].len() > 0 by {
        let t = tags[k];
        assert(well_placed(line, t));
        if tag_id_value(line, t) == id {
            lemma_flag_tag_last(
                id as nat,
                match label {
                    Some(l) => l,
                    None => tag_label(line, t),
                },
                comment,
            );
        } else {
            lemma_piece_no_final_newline(line, t.start, t.end);
        }
    }
    lemma_splice_no_final_newline(line, 0, tags, reps);
    if line.len() > 0 && tags.len() > 0 {
        assert(reps[0].len() > 0);
        let sp = splice(line, 0, tags, reps);
        assert(sp == line.subrange(0, tags[0].start) + reps[0] + splice(
            line,
            tags[0].end,
            tags.drop_first(),
            reps.drop_first(),
        ));
    }
}

/// Injecting a flag changes only the target line: splitting the result
/// gives the document's lines with the target line followed by a space and
/// the new tag (the sanitized comment after the label and `": "`).
///
/// This holds when the label and the comment hold no line feed and no
/// other line that a line feed follows ends with a carriage return (which
/// splitting again drops).
pub proof fn law_inject_lines(
    content: Seq<char>,
    line: int,
    id: nat,
    label: Seq<char>,
    comment: Seq<char>,
)
    requires
        1 <= line <= lines_of(content).len(),
        !label.contains('\n'),
        !comment.contains('\n'),
        forall|k: int|
            0 <= k < lines_of(content).len() && k != line - 1 && (k < lines_of(content).len() - 1
                || ends_with_newline(content)) && (#[trigger] lines_of(content)[k]).len() > 0
                ==> lines_of(content)[k].last() != '\r',
    ensures
        lines_of(injected(content, line, id, label, comment)) == lines_of(content).update(
            line - 1,
            lines_of(content)[line - 1] + seq![' '] + flag_tag(id, label, sanitized(comment)),
        ),
{
    let ls = lines_of(content);
    let com = sanitized(comment);
    let x = ls[line - 1];
    let nt = flag_tag(id, label, com);
    let new_line = x + seq![' '] + nt;
    let ls2 = ls.update(line - 1, new_line);
    let nl = ends_with_newline(content);
    lemma_lines_shape(content, 0);
    lemma_sanitized_chars(comment);
    assert(!com.contains('\n'));
    lemma_flag_tag_lacks_newline(id, label, com);
    lemma_concat_lacks(x, seq![' '], '\n');
    lemma_concat_lacks(x + seq![' '], nt, '\n');
    lemma_flag_tag_last(id, label, com);
    assert(new_line.last() == nt.last());
    assert(no_newlines(ls2)) by {
        assert forall|k: int| 0 <= k < ls2.len() implies !(#[trigger] ls2[k]).contains('\n') by {
            if k != line - 1 {
                assert(ls2[k] == ls[k]);
            }
        }
    }
    if !nl {
        if line - 1 != ls.len() - 1 {
            assert(ls2.last() == ls.last());
        }
    }
    lemma_lines_rejoin_cr(ls2, nl);
    assert(resplit(ls2, nl) =~= ls2) by {
        assert forall|k: int| 0 <= k < ls2.len() implies #[trigger] resplit(ls2, nl)[k] == ls2[k] by {
            if k != line - 1 {
                assert(ls2[k] == ls[k]);
            } else {
                assert(ls2[k].last() == '>');
            }
        }
    }
}

/// Injecting a flag keeps whether the document ends with a line feed.
pub proof fn law_inject_keeps_final_newline(
    content: Seq<char>,
    line: int,
    id: nat,
    label: Seq<char>,
    comment: Seq<char>,
)
    requires
        1 <= line <= lines_of(content).len(),
    ensures
        ends_with_newline(injected(content, line, id, label, comment)) == ends_with_newline(
            content,
        ),
{
    let ls = lines_of(content);
    let nl = ends_with_newline(content);
    lemma_lines_shape(content, 0);
    let tag = flag_tag(id, label, sanitized(comment));
    let ls2 = ls.update(line - 1, ls[line - 1] + seq![' '] + tag);
    if !nl {
        assert(content.len() > 0);
        if line - 1 == ls.len() - 1 {
            lemma_flag_tag_last(id, label, sanitized(comment));
            assert(ls2.last() == ls[line - 1] + seq![' '] + tag);
            assert(ls2.last().last() == tag.last());
        } else {
            assert(ls2.last() == ls.last());
            assert(!ls.last().contains('\n'));
            if ls.last().last() == '\n' {
                assert(ls.last()[ls.last().len() - 1] == '\n');
            }
        }
    }
    lemma_rejoin_final_newline(ls2, nl);
}

/// Updating a flag keeps whether the document ends with a line feed.
pub proof fn law_update_keeps_final_newline(
    content: Seq<char>,
    id: u32,
    comment: Seq<char>,
    label: Option<Seq<char>>,
)
    ensures
        ends_with_newline(updated(content, id, comment, label)) == ends_with_newline(content),
{
    let ls = lines_of(content);
    let nl = ends_with_newline(content);
    let ls2 = ls.map_values(|l: Seq<char>| updated_line(l, id, sanitized(comment), label));
    lemma_lines_shape(content, 0);
    if !nl {
        if content.len() == 0 {
            assert(ls.len() == 0);
            assert(ls2.len() == 0);
            assert(rejoin(ls2, nl) =~= Seq::<char>::empty());
        } else {
            let last = ls.last();
            assert(!last.contains('\n'));
            lemma_updated_line_shape(last, id, sanitized(comment), label);
            assert(ls2.last() == updated_line(last, id, sanitized(comment), label));
            lemma_rejoin_final_newline(ls2, nl);
        }
    } else {
        lemma_rejoin_final_newline(ls2, nl);
    }
}

/// Removing a flag keeps whether the document ends with a line feed,
/// unless the document does not end with one and its last line is left
/// empty.
pub proof fn law_remove_keeps_final_newline(content: Seq<char>, id: u32)
    requires
        !ends_with_newline(content) && lines_of(content).len() > 0 ==> removed_line(
            lines_of(content).last(),
            id,
        ).len() > 0,
    ensures
        ends_with_newline(removed(content, id)) == ends_with_newline(content),
{
    let ls = lines_of(content);
    let nl = ends_with_newline(content);
    let ls2 = ls.map_values(|l: Seq<char>| removed_line(l, id));
    lemma_lines_shape(content, 0);
    if !nl {
        if content.len() == 0 {
            assert(ls.len() == 0);
            assert(ls2.len() == 0);
            assert(rejoin(ls2, nl) =~= Seq::<char>::empty());
        } else {
            let last = ls.last();
            assert(!last.contains('\n'));
            let tags = tags_of(last, false);
            let reps = removal_reps(last, tags, id);
            lemma_tags_from_ordered(last, 0, false);
            assert forall|k: int| 0 <= k < reps.len() implies no_final_newline(
                #[trigger] reps[k],
            ) by {
                let t = tags[k];
                assert(well_placed(last, t));
                if tag_id_value(last, t) != id {
                    lemma_piece_no_final_newline(last, t.start, t.end);
                }
            }
            lemma_splice_no_final_newline(last, 0, tags, reps);
            assert(ls2.last() == removed_line(last, id));
            lemma_rejoin_final_newline(ls2, nl);
        }
    } else {
        lemma_rejoin_final_newline(ls2, nl);
    }
}

/// The parts of tags without those whose id has the value `id`.
pub open spec fn parts_without(cs: Seq<(Seq<char>, Seq<char>, Seq<char>)>, id: u32) -> Seq<
    (Seq<char>, Seq<char>, Seq<char>),
>
    decreases cs.len(),
{
    if cs.len() == 0 {
        seq![]
    } else {
        let r = parts_without(cs.drop_last(), id);
        if id_value(cs.last().0) == id {
            r
        } else {
            r.push(cs.last())
        }
    }
}

proof fn lemma_parts_without_concat(
    a: Seq<(Seq<char>, Seq<char>, Seq<char>)>,
    b: Seq<(Seq<char>, Seq<char>, Seq<char>)>,
    id: u32,
)
    ensures
        parts_without(a + b, id) == parts_without(a, id) + parts_without(b, id),
    decreases b.len(),
{
    if b.len() == 0 {
        assert(a + b =~= a);
        assert(parts_without(a, id) + parts_without(b, id) =~= parts_without(a, id));
    } else {
        assert((a + b).drop_last() =~= a + b.drop_last());
        assert((a + b).last() == b.last());
        lemma_parts_without_concat(a, b.drop_last(), id);
        let x = parts_without(a, id);
        let y = parts_without(b.drop_last(), id);
        assert((x + y).push(b.last()) =~= x + y.push(b.last()));
    }
}

/// The first tag found from `pos`: where it starts, and that the scan goes
/// on after it.
proof fn lemma_tags_from_first(s: Seq<char>, pos: int, oc: bool)
    requires
        0 <= pos,
    ensures
        tags_from(s, pos, oc).len() > 0 ==> {
            let t = tags_from(s, pos, oc)[0];
            &&& pos <= t.start < t.end <= s.len()
            &&& tag_at(s, t.start, oc) == Some(t)
            &&& tags_from(s, pos, oc).drop_first() == tags_from(s, t.end, oc)
            &&& forall|j: int| pos <= j < t.start ==> #[trigger] tag_at(s, j, oc) is None
        },
    decreases s.len() - pos,
{
    if pos < s.len() {
        lemma_tag_at_well_placed(s, pos, oc);
        match tag_at(s, pos, oc) {
            Some(t) => {
                if pos < t.end <= s.len() {
                    let all = seq![t] + tags_from(s, t.end, oc);
                    assert(all.drop_first() =~= tags_from(s, t.end, oc));
                }
            },
            None => {
                lemma_tags_from_first(s, pos + 1, oc);
            },
        }
    }
}

/// The scan of a text that starts with a tag found by the scan of a line,
/// copied whole: the same tag, then what the rest of the text holds.
#[verifier::rlimit(100)]
proof fn lemma_kept_tag_scan(l: Seq<char>, t: TagSpan, rest: Seq<TagSpan>, o2: Seq<char>)
    requires
        tag_at(l, t.start, false) == Some(t),
        0 <= t.start < t.end <= l.len(),
        !l.contains('\n'),
        rest == tags_from(l, t.end, false),
        rest.len() == 0 ==> o2 == l.subrange(t.end, l.len() as int) || found_by_close(l, t),
    ensures
        ({
            let r0 = l.subrange(t.start, t.end);
            let x = r0 + o2;
            tags_from(x, 0, false) == seq![shift_span(t, -t.start)] + shift_spans(
                tags_of(o2, false),
                r0.len() as int,
            )
        }),
{
    let r0 = l.subrange(t.start, t.end);
    let x = r0 + o2;
    let d = t.start;
    let tr = shift_span(t, -d);
    let pre = l.subrange(0, d);
    let s1 = l.subrange(d, l.len() as int);
    assert(l =~= pre + s1);
    lemma_tag_at_shift(pre, s1, 0, false);
    assert(tag_at(s1, 0, false) is Some);
    assert(tag_at(s1, 0, false) == Some(tr));
    lemma_tag_at_well_placed(l, t.start, false);
    if rest.len() == 0 && o2 == l.subrange(t.end, l.len() as int) {
        assert(x =~= s1);
    } else {
        lemma_tag_at_space(l, t.start, false);
        let q = space_run_end(l, t.label_end + 1);
        if rest.len() > 0 {
            lemma_tags_from_ordered(l, t.end, false);
            let t1 = rest[0];
            assert(well_placed(l, t1));
            lemma_tags_from_first(l, t.end, false);
            assert forall|m: int| q + 1 <= m < t1.comment_end implies l[m] != '\n' by {
                if l[m] == '\n' {
                    assert(l.contains('\n'));
                }
            }
            lemma_close_found(l, q + 1, t1.comment_end);
            if l[q] == '\n' {
                assert(l.contains('\n'));
            }
        }
        assert(found_by_close(l, t));
        // The same holds of the tag moved to the front of `s1`.
        lemma_runs_shift(pre, s1, tr.label_end + 1);
        let qr = space_run_end(s1, tr.label_end + 1);
        assert(q == d + qr);
        lemma_close_shift(pre, s1, qr + 1);
        assert(s1[qr] == l[q]);
        assert(found_by_close(s1, tr));
        assert(agree_below(s1, x, r0.len() as int)) by {
            assert forall|k: int| 0 <= k < r0.len() implies s1[k] == x[k] by {
                assert(s1[k] == l[d + k]);
                assert(x[k] == r0[k]);
            }
        }
        lemma_tag_at_window(s1, x, r0.len() as int, 0, false);
    }
    assert(tag_at(x, 0, false) == Some(tr));
    assert(tr.end == r0.len());
    lemma_tags_from_shift(r0, o2, 0, false);
    assert(tags_from(x, 0, false) == seq![tr] + tags_from(x, tr.end, false));
}

/// Text that starts with a gap in which no `<flag:` begins has the tags of
/// the rest, moved behind the gap.
proof fn lemma_gap_then_tags(g: Seq<char>, x: Seq<char>)
    requires
        forall|j: int| 0 <= j < g.len() ==> !#[trigger] occurs_at(g + x, j, open_pat()),
    ensures
        tags_of(g + x, false) == shift_spans(tags_of(x, false), g.len() as int),
{
    let o = g + x;
    assert forall|j: int| 0 <= j < g.len() implies #[trigger] tag_at(o, j, false) is None by {
        lemma_no_tag_without_open(o, j, false);
    }
    lemma_tags_skip(o, 0, g.len() as int, false);
    lemma_tags_from_shift(g, x, 0, false);
}

/// A gap in front in which no `<flag:` begins changes neither the parts of
/// the tags nor, but for itself, the text outside them.
proof fn lemma_gap_parts_open(g: Seq<char>, x: Seq<char>)
    requires
        forall|j: int| 0 <= j < g.len() ==> !#[trigger] occurs_at(g + x, j, open_pat()),
    ensures
        tags_parts(g + x, tags_of(g + x, false)) == tags_parts(x, tags_of(x, false)),
        strip_tags(g + x) == g + strip_tags(x),
{
    lemma_gap_then_tags(g, x);
    let xs = tags_of(x, false);
    lemma_tags_from_ordered(x, 0, false);
    lemma_parts_shift(g, x, xs);
    assert(shift_spans(xs, g.len() as int).len() == xs.len());
    lemma_splice_prefix(g, x, xs, no_reps(xs.len()));
}

/// A gap without `<` in front changes neither the parts of the tags nor,
/// but for itself, the text outside them.
proof fn lemma_gap_parts(g: Seq<char>, x: Seq<char>)
    requires
        forall|k: int| 0 <= k < g.len() ==> g[k] != '<',
    ensures
        tags_parts(g + x, tags_of(g + x, false)) == tags_parts(x, tags_of(x, false)),
        strip_tags(g + x) == g + strip_tags(x),
{
    assert forall|j: int| 0 <= j < g.len() implies !#[trigger] occurs_at(g + x, j, open_pat()) by {
        if occurs_at(g + x, j, open_pat()) {
            assert((g + x).subrange(j, j + 6)[0] == g[j]);
        }
    }
    lemma_gap_parts_open(g, x);
}

/// `x` starts with a piece of `out`, then ends or goes on with `<` or a
/// space.
pub open spec fn starts_clear(x: Seq<char>, out: Seq<char>) -> bool {
    exists|m: int|
        0 <= m <= x.len() && m <= out.len() && #[trigger] x.subrange(0, m) == out.subrange(0, m) && (
        m == x.len() || x[m] == '<' || x[m] == ' ')
}

/// No `<flag:` begins in a gap `g` followed by text that starts like `out`
/// where `g + out` holds none.
proof fn lemma_gap_no_open(g: Seq<char>, y: Seq<char>, out: Seq<char>)
    requires
        !contains_seq(g + out, open_pat()),
        starts_clear(y, out),
    ensures
        forall|j: int| 0 <= j < g.len() ==> !#[trigger] occurs_at(g + y, j, open_pat()),
{
    let m = choose|m: int|
        0 <= m <= y.len() && m <= out.len() && #[trigger] y.subrange(0, m) == out.subrange(0, m) && (
        m == y.len() || y[m] == '<' || y[m] == ' ');
    let o = g + y;
    let big = g + out;
    assert forall|j: int| 0 <= j < g.len() implies !#[trigger] occurs_at(o, j, open_pat()) by {
        if occurs_at(o, j, open_pat()) {
            if j + 6 <= g.len() + m {
                assert forall|k: int| 0 <= k < 6 implies #[trigger] big.subrange(j, j + 6)[k]
                    == o.subrange(j, j + 6)[k] by {
                    let i = j + k;
                    if i >= g.len() {
                        assert(y.subrange(0, m)[i - g.len()] == out.subrange(0, m)[i - g.len()]);
                    }
                }
                assert(big.subrange(j, j + 6) =~= o.subrange(j, j + 6));
                assert(occurs_at(big, j, open_pat()));
                assert(contains_seq(big, open_pat()));
            } else {
                let k = g.len() + m - j;
                assert(o.subrange(j, j + 6)[k] == y[m]);
            }
        }
    }
}

/// What a line read from `pos`, followed by `tail`, is meant to give: the
/// tags of the line, then those of the tail, and the text outside them.
pub open spec fn append_ok(l: Seq<char>, pos: int, tail: Seq<char>) -> bool {
    let o = l.subrange(pos, l.len() as int) + tail;
    &&& tags_parts(o, tags_of(o, false)) == tags_parts(l, tags_from(l, pos, false)) + tags_parts(
        tail,
        tags_of(tail, false),
    )
    &&& strip_tags(o) == outside_tags(l, pos) + strip_tags(tail)
}

/// The appending scan where no tag is left in the line.
proof fn lemma_append_base(l: Seq<char>, pos: int, tail: Seq<char>)
    requires
        0 <= pos <= l.len(),
        tags_from(l, pos, false).len() == 0,
        !contains_seq(outside_tags(l, pos), open_pat()),
        tail.len() > 0,
        tail[0] == ' ',
    ensures
        append_ok(l, pos, tail),
{
    let ts = tags_from(l, pos, false);
    let g = l.subrange(pos, l.len() as int);
    assert(outside_tags(l, pos) == g);
    let e = Seq::<char>::empty();
    assert(g + e =~= g);
    assert(tail.subrange(0, 0) =~= e.subrange(0, 0));
    lemma_gap_no_open(g, tail, e);
    lemma_gap_parts_open(g, tail);
    assert(tags_parts(l, ts) =~= Seq::<(Seq<char>, Seq<char>, Seq<char>)>::empty());
    assert(tags_parts(l, ts) + tags_parts(tail, tags_of(tail, false)) =~= tags_parts(
        tail,
        tags_of(tail, false),
    ));
}

/// The shape of a line's scan from `pos` at its first tag.
proof fn lemma_append_shape(l: Seq<char>, pos: int)
    requires
        0 <= pos <= l.len(),
        tags_from(l, pos, false).len() > 0,
        !contains_seq(outside_tags(l, pos), open_pat()),
    ensures
        ({
            let ts = tags_from(l, pos, false);
            let t = ts[0];
            let g = l.subrange(pos, t.start);
            &&& pos <= t.start < t.end <= l.len()
            &&& tag_at(l, t.start, false) == Some(t)
            &&& well_placed(l, t)
            &&& ts.drop_first() == tags_from(l, t.end, false)
            &&& outside_tags(l, pos) == g + outside_tags(l, t.end)
            &&& !contains_seq(outside_tags(l, t.end), open_pat())
            &&& l[t.start] == '<'
        }),
{
    let ts = tags_from(l, pos, false);
    lemma_tags_from_ordered(l, pos, false);
    lemma_tags_from_first(l, pos, false);
    let t = ts[0];
    lemma_tag_at_well_placed(l, t.start, false);
    let g = l.subrange(pos, t.start);
    let nr = no_reps(ts.len());
    assert(nr.drop_first() =~= no_reps((ts.len() - 1) as nat));
    lemma_splice_first(l, pos, ts, nr);
    let out = outside_tags(l, pos);
    let out2 = outside_tags(l, t.end);
    assert(out =~= g + out2);
    assert(l[t.start] == l.subrange(t.start, t.start + 6)[0]);
    assert(!contains_seq(out2, open_pat())) by {
        if contains_seq(out2, open_pat()) {
            let i = choose|i: int| occurs_at(out2, i, open_pat());
            assert(out.subrange(g.len() + i, g.len() + i + 6) =~= out2.subrange(i, i + 6));
            assert(occurs_at(out, g.len() + i, open_pat()));
        }
    }
}

/// The appending scan at a line's first tag, given what it gives after
/// that tag.
#[verifier::rlimit(30)]
proof fn lemma_append_step(l: Seq<char>, pos: int, tail: Seq<char>)
    requires
        0 <= pos <= l.len(),
        !l.contains('\n'),
        tags_from(l, pos, false).len() > 0,
        !contains_seq(outside_tags(l, pos), open_pat()),
        found_by_close(l, tags_from(l, pos, false)[0]),
        tail.len() > 0,
        tail[0] == ' ',
        append_ok(l, tags_from(l, pos, false)[0].end, tail),
    ensures
        append_ok(l, pos, tail),
{
    lemma_append_shape(l, pos);
    let ts = tags_from(l, pos, false);
    let t = ts[0];
    let rest = ts.drop_first();
    let g = l.subrange(pos, t.start);
    let out = outside_tags(l, pos);
    let out2 = outside_tags(l, t.end);
    let r0 = l.subrange(t.start, t.end);
    let o2 = l.subrange(t.end, l.len() as int) + tail;
    let o = l.subrange(pos, l.len() as int) + tail;
    assert(o =~= g + (r0 + o2));
    assert((r0 + o2)[0] == l[t.start]);
    assert((r0 + o2).subrange(0, 0) =~= out2.subrange(0, 0));
    lemma_gap_no_open(g, r0 + o2, out2);
    lemma_gap_parts_open(g, r0 + o2);
    lemma_kept_parts(l, t, rest, o2);
    assert(tags_parts(l, ts) =~= seq![tag_parts(l, t)] + tags_parts(l, rest));
    let tp = tags_parts(tail, tags_of(tail, false));
    assert(seq![tag_parts(l, t)] + (tags_parts(l, rest) + tp) =~= tags_parts(l, ts) + tp);
    assert(g + (out2 + strip_tags(tail)) =~= out + strip_tags(tail));
}

/// Text behind a line whose text outside tags holds no `<flag:` and whose
/// tags all end at their own `</flag>` keeps the line's tags as they were,
/// when it starts with a space.
proof fn lemma_append_scan(l: Seq<char>, pos: int, tail: Seq<char>)
    requires
        0 <= pos <= l.len(),
        !l.contains('\n'),
        !contains_seq(outside_tags(l, pos), open_pat()),
        forall|k: int|
            0 <= k < tags_from(l, pos, false).len() ==> found_by_close(
                l,
                #[trigger] tags_from(l, pos, false)[k],
            ),
        tail.len() > 0,
        tail[0] == ' ',
    ensures
        append_ok(l, pos, tail),
    decreases l.len() - pos,
{
    let ts = tags_from(l, pos, false);
    if ts.len() == 0 {
        lemma_append_base(l, pos, tail);
    } else {
        lemma_append_shape(l, pos);
        let t = ts[0];
        let rest = ts.drop_first();
        assert forall|k: int| 0 <= k < rest.len() implies found_by_close(l, #[trigger] rest[k]) by {
            assert(rest[k] == ts[k + 1]);
        }
        assert(found_by_close(l, ts[0]));
        lemma_append_scan(l, t.end, tail);
        lemma_append_step(l, pos, tail);
    }
}

/// A tag of a line, copied whole in front of the rest: its parts come
/// first, and the text outside tags is that of the rest.
#[verifier::rlimit(30)]
proof fn lemma_kept_parts(l: Seq<char>, t: TagSpan, rest: Seq<TagSpan>, o2: Seq<char>)
    requires
        tag_at(l, t.start, false) == Some(t),
        0 <= t.start < t.end <= l.len(),
        well_placed(l, t),
        !l.contains('\n'),
        rest == tags_from(l, t.end, false),
        rest.len() == 0 ==> o2 == l.subrange(t.end, l.len() as int) || found_by_close(l, t),
    ensures
        ({
            let x = l.subrange(t.start, t.end) + o2;
            &&& tags_parts(x, tags_of(x, false)) == seq![tag_parts(l, t)] + tags_parts(
                o2,
                tags_of(o2, false),
            )
            &&& strip_tags(x) == strip_tags(o2)
        }),
{
    let r0 = l.subrange(t.start, t.end);
    let x = r0 + o2;
    lemma_kept_tag_scan(l, t, rest, o2);
    let tr = shift_span(t, -t.start);
    let ys = tags_of(o2, false);
    let xs = tags_of(x, false);
    assert(xs == seq![tr] + shift_spans(ys, r0.len() as int));
    lemma_tags_from_ordered(o2, 0, false);
    lemma_parts_shift(r0, o2, ys);
    assert(tags_parts(x, xs) =~= seq![tag_parts(x, tr)] + tags_parts(
        x,
        shift_spans(ys, r0.len() as int),
    ));
    assert(tag_parts(x, tr) == tag_parts(l, t)) by {
        assert(x.subrange(tr.id_start, tr.id_end) =~= l.subrange(t.id_start, t.id_end));
        assert(x.subrange(tr.label_start, tr.label_end) =~= l.subrange(t.label_start, t.label_end));
        assert(x.subrange(tr.comment_start, tr.comment_end) =~= l.subrange(
            t.comment_start,
            t.comment_end,
        ));
    }
    let nx = no_reps(xs.len());
    assert(nx.drop_first() =~= no_reps(ys.len()));
    lemma_splice_shift(r0, o2, 0, ys, no_reps(ys.len()));
    assert(xs.drop_first() =~= shift_spans(ys, r0.len() as int));
    assert(x.subrange(0, 0) =~= Seq::<char>::empty());
    assert(splice(x, 0, xs, nx) =~= splice(o2, 0, ys, no_reps(ys.len())));
}

/// One step of a splice over the tags found from `pos`.
proof fn lemma_splice_first(s: Seq<char>, pos: int, ts: Seq<TagSpan>, reps: Seq<Seq<char>>)
    requires
        ts.len() > 0,
        reps.len() == ts.len(),
    ensures
        splice(s, pos, ts, reps) == s.subrange(pos, ts[0].start) + (reps[0] + splice(
            s,
            ts[0].end,
            ts.drop_first(),
            reps.drop_first(),
        )),
{
    let a = s.subrange(pos, ts[0].start);
    let b = splice(s, ts[0].end, ts.drop_first(), reps.drop_first());
    assert(a + reps[0] + b =~= a + (reps[0] + b));
}

/// What the scan of a line from `pos` removes, and what the text outside
/// its tags is.
pub open spec fn removal_result(l: Seq<char>, pos: int, id: u32) -> Seq<char> {
    splice(l, pos, tags_from(l, pos, false), removal_reps(l, tags_from(l, pos, false), id))
}

/// The text outside the tags found from `pos`.
pub open spec fn outside_tags(l: Seq<char>, pos: int) -> Seq<char> {
    splice(l, pos, tags_from(l, pos, false), no_reps(tags_from(l, pos, false).len()))
}

/// What the removal scan from `pos` is meant to give.
pub open spec fn removal_ok(l: Seq<char>, pos: int, id: u32) -> bool {
    let o = removal_result(l, pos, id);
    &&& tags_parts(o, tags_of(o, false)) == parts_without(tags_parts(l, tags_from(l, pos, false)), id)
    &&& strip_tags(o) == outside_tags(l, pos)
}

proof fn lemma_removal_base(l: Seq<char>, pos: int, id: u32)
    requires
        0 <= pos <= l.len(),
        tags_from(l, pos, false).len() == 0,
    ensures
        removal_ok(l, pos, id),
{
    let ts = tags_from(l, pos, false);
    let o = removal_result(l, pos, id);
    let pre = l.subrange(0, pos);
    let r = l.subrange(pos, l.len() as int);
    assert(l =~= pre + r);
    lemma_tags_from_shift(pre, r, 0, false);
    assert(o == r);
    assert(tags_of(o, false).len() == 0);
    assert(tags_parts(o, tags_of(o, false)) =~= Seq::<(Seq<char>, Seq<char>, Seq<char>)>::empty());
    assert(tags_parts(l, ts) =~= Seq::<(Seq<char>, Seq<char>, Seq<char>)>::empty());
    assert(o.subrange(0, o.len() as int) =~= o);
}

/// The shape of the removal scan at its first tag.
proof fn lemma_removal_shape(l: Seq<char>, pos: int, id: u32)
    requires
        0 <= pos <= l.len(),
        tags_from(l, pos, false).len() > 0,
    ensures
        ({
            let ts = tags_from(l, pos, false);
            let t = ts[0];
            let g = l.subrange(pos, t.start);
            let r0 = removal_reps(l, ts, id)[0];
            &&& pos <= t.start < t.end <= l.len()
            &&& tag_at(l, t.start, false) == Some(t)
            &&& well_placed(l, t)
            &&& ts.drop_first() == tags_from(l, t.end, false)
            &&& removal_result(l, pos, id) == g + (r0 + removal_result(l, t.end, id))
            &&& r0 == if tag_id_value(l, t) == id {
                Seq::<char>::empty()
            } else {
                l.subrange(t.start, t.end)
            }
            &&& outside_tags(l, pos) == g + outside_tags(l, t.end)
            &&& tags_parts(l, ts) == seq![tag_parts(l, t)] + tags_parts(l, ts.drop_first())
        }),
{
    let ts = tags_from(l, pos, false);
    lemma_tags_from_ordered(l, pos, false);
    lemma_tags_from_first(l, pos, false);
    lemma_tag_at_well_placed(l, ts[0].start, false);
    let t = ts[0];
    let rest = ts.drop_first();
    let n = ts.len();
    let g = l.subrange(pos, t.start);
    let reps = removal_reps(l, ts, id);
    assert(reps.drop_first() =~= removal_reps(l, rest, id));
    lemma_splice_first(l, pos, ts, reps);
    let nr = no_reps(n);
    assert(nr.drop_first() =~= no_reps((n - 1) as nat));
    lemma_splice_first(l, pos, ts, nr);
    let stripped = outside_tags(l, pos);
    let stripped2 = outside_tags(l, t.end);
    assert(stripped =~= g + stripped2);
    assert(tags_parts(l, ts) =~= seq![tag_parts(l, t)] + tags_parts(l, rest));
}

/// The text that the removal scan from `pos` gives starts like the text
/// outside the tags found from `pos`, up to its end or a `<`.
proof fn lemma_removal_lead(l: Seq<char>, pos: int, id: u32)
    requires
        0 <= pos <= l.len(),
    ensures
        starts_clear(removal_result(l, pos, id), outside_tags(l, pos)),
    decreases l.len() - pos,
{
    let ts = tags_from(l, pos, false);
    let o = removal_result(l, pos, id);
    let out = outside_tags(l, pos);
    if ts.len() == 0 {
        assert(o == out);
        assert(o.subrange(0, o.len() as int) =~= out.subrange(0, o.len() as int));
    } else {
        lemma_removal_shape(l, pos, id);
        let t = ts[0];
        let g = l.subrange(pos, t.start);
        let o2 = removal_result(l, t.end, id);
        let out2 = outside_tags(l, t.end);
        if tag_id_value(l, t) == id {
            lemma_removal_lead(l, t.end, id);
            let m2 = choose|m: int|
                0 <= m <= o2.len() && m <= out2.len() && #[trigger] o2.subrange(0, m)
                    == out2.subrange(0, m) && (m == o2.len() || o2[m] == '<' || o2[m] == ' ');
            let m = g.len() + m2;
            assert(o =~= g + o2);
            assert(o.subrange(0, m) =~= g + o2.subrange(0, m2));
            assert(out.subrange(0, m) =~= g + out2.subrange(0, m2));
            if m2 < o2.len() {
                assert(o[m] == o2[m2]);
            }
        } else {
            let m = g.len() as int;
            assert(o.subrange(0, m) =~= out.subrange(0, m));
            assert(o[m] == l[t.start]);
            assert(l[t.start] == l.subrange(t.start, t.start + 6)[0]);
        }
    }
}

/// The removal scan at its first tag, given what it gives after that tag.
proof fn lemma_removal_step(l: Seq<char>, pos: int, id: u32)
    requires
        0 <= pos <= l.len(),
        !l.contains('\n'),
        tags_from(l, pos, false).len() > 0,
        !contains_seq(outside_tags(l, pos), open_pat()),
        removal_ok(l, tags_from(l, pos, false)[0].end, id),
    ensures
        removal_ok(l, pos, id),
{
    lemma_removal_shape(l, pos, id);
    lemma_append_shape(l, pos);
    let ts = tags_from(l, pos, false);
    let t = ts[0];
    let rest = ts.drop_first();
    let g = l.subrange(pos, t.start);
    let r0 = removal_reps(l, ts, id)[0];
    let o2 = removal_result(l, t.end, id);
    let out2 = outside_tags(l, t.end);
    let x = r0 + o2;
    if tag_id_value(l, t) == id {
        assert(x =~= o2);
        lemma_removal_lead(l, t.end, id);
    } else {
        assert(x[0] == l[t.start]);
        assert(x.subrange(0, 0) =~= out2.subrange(0, 0));
    }
    lemma_gap_no_open(g, x, out2);
    lemma_gap_parts_open(g, x);
    let c0 = tag_parts(l, t);
    lemma_parts_without_concat(seq![c0], tags_parts(l, rest), id);
    assert(seq![c0].drop_last() =~= Seq::<(Seq<char>, Seq<char>, Seq<char>)>::empty());
    assert(seq![c0].last() == c0);
    assert(parts_without(Seq::<(Seq<char>, Seq<char>, Seq<char>)>::empty(), id)
        =~= Seq::<(Seq<char>, Seq<char>, Seq<char>)>::empty());
    assert(id_value(c0.0) == tag_id_value(l, t));
    if tag_id_value(l, t) == id {
        assert(parts_without(seq![c0], id) =~= Seq::<(Seq<char>, Seq<char>, Seq<char>)>::empty());
    } else {
        if rest.len() == 0 {
            assert(o2 == l.subrange(t.end, l.len() as int));
        }
        lemma_kept_parts(l, t, rest, o2);
        assert(parts_without(seq![c0], id) =~= seq![c0]);
    }
}

/// Removing the tags with id `id` from a line whose text outside tags holds
/// no `<flag:` leaves exactly the other tags, with their parts, and the same
/// text outside tags.
proof fn lemma_removal_scan(l: Seq<char>, pos: int, id: u32)
    requires
        0 <= pos <= l.len(),
        !l.contains('\n'),
        !contains_seq(outside_tags(l, pos), open_pat()),
    ensures
        removal_ok(l, pos, id),
    decreases l.len() - pos,
{
    if tags_from(l, pos, false).len() == 0 {
        lemma_removal_base(l, pos, id);
    } else {
        lemma_append_shape(l, pos);
        let t = tags_from(l, pos, false)[0];
        lemma_removal_scan(l, t.end, id);
        lemma_removal_step(l, pos, id);
    }
}

/// The flags without those with id `id`.
pub open spec fn flags_without(fs: Seq<FlagView>, id: u32) -> Seq<FlagView>
    decreases fs.len(),
{
    if fs.len() == 0 {
        seq![]
    } else {
        let r = flags_without(fs.drop_last(), id);
        if fs.last().id == id {
            r
        } else {
            r.push(fs.last())
        }
    }
}

/// The flags that tags with the given parts denote on line `n` with
/// context `ctx`.
pub open spec fn flags_of_parts(
    cs: Seq<(Seq<char>, Seq<char>, Seq<char>)>,
    ctx: Seq<char>,
    n: int,
) -> Seq<FlagView>
    decreases cs.len(),
{
    if cs.len() == 0 {
        seq![]
    } else {
        let r = flags_of_parts(cs.drop_last(), ctx, n);
        let c = cs.last();
        if 0 < id_value(c.0) <= u32::MAX {
            r.push(
                FlagView {
                    id: id_value(c.0) as u32,
                    line: n,
                    context: ctx,
                    label: c.1,
                    comment: c.2,
                },
            )
        } else {
            r
        }
    }
}

proof fn lemma_flags_of_tags_parts(s: Seq<char>, ts: Seq<TagSpan>, n: int)
    ensures
        flags_of_tags(s, ts, n) == flags_of_parts(tags_parts(s, ts), strip_tags(s), n),
    decreases ts.len(),
{
    if ts.len() > 0 {
        assert(tags_parts(s, ts).drop_last() =~= tags_parts(s, ts.drop_last()));
        lemma_flags_of_tags_parts(s, ts.drop_last(), n);
    }
}

proof fn lemma_flags_of_parts_without(
    cs: Seq<(Seq<char>, Seq<char>, Seq<char>)>,
    ctx: Seq<char>,
    n: int,
    id: u32,
)
    ensures
        flags_without(flags_of_parts(cs, ctx, n), id) == flags_of_parts(parts_without(cs, id), ctx, n),
    decreases cs.len(),
{
    if cs.len() > 0 {
        lemma_flags_of_parts_without(cs.drop_last(), ctx, n, id);
        let c = cs.last();
        let r = parts_without(cs.drop_last(), id);
        let f = flags_of_parts(cs.drop_last(), ctx, n);
        let fc = FlagView {
            id: id_value(c.0) as u32,
            line: n,
            context: ctx,
            label: c.1,
            comment: c.2,
        };
        assert(f.push(fc).drop_last() =~= f);
        assert(f.push(fc).last() == fc);
        assert(r.push(c).drop_last() =~= r);
        assert(r.push(c).last() == c);
    }
}

proof fn lemma_flags_without_concat(a: Seq<FlagView>, b: Seq<FlagView>, id: u32)
    ensures
        flags_without(a + b, id) == flags_without(a, id) + flags_without(b, id),
    decreases b.len(),
{
    if b.len() == 0 {
        assert(a + b =~= a);
        assert(flags_without(a, id) + flags_without(b, id) =~= flags_without(a, id));
    } else {
        assert((a + b).drop_last() =~= a + b.drop_last());
        assert((a + b).last() == b.last());
        lemma_flags_without_concat(a, b.drop_last(), id);
        let x = flags_without(a, id);
        let y = flags_without(b.drop_last(), id);
        assert((x + y).push(b.last()) =~= x + y.push(b.last()));
    }
}

/// Removing the tags with id `id` from a line whose text outside tags holds
/// no `<flag:` leaves the line's other flags.
proof fn lemma_line_removal(l: Seq<char>, n: int, id: u32)
    requires
        !l.contains('\n'),
        !contains_seq(strip_tags(l), open_pat()),
    ensures
        line_flags(removed_line(l, id), n) == flags_without(line_flags(l, n), id),
{
    lemma_removal_scan(l, 0, id);
    let o = removed_line(l, id);
    assert(o == removal_result(l, 0, id));
    lemma_flags_of_tags_parts(o, tags_of(o, false), n);
    lemma_flags_of_tags_parts(l, tags_of(l, false), n);
    lemma_flags_of_parts_without(tags_parts(l, tags_of(l, false)), strip_tags(l), n, id);
}

/// A splice of pieces without `c` into a text without `c` holds no `c`.
proof fn lemma_splice_lacks(
    s: Seq<char>,
    pos: int,
    tags: Seq<TagSpan>,
    reps: Seq<Seq<char>>,
    c: char,
)
    requires
        ordered_from(s, pos, tags),
        reps.len() == tags.len(),
        !s.contains(c),
        forall|k: int| 0 <= k < reps.len() ==> !(#[trigger] reps[k]).contains(c),
    ensures
        !splice(s, pos, tags, reps).contains(c),
    decreases tags.len(),
{
    let out = splice(s, pos, tags, reps);
    if tags.len() == 0 {
        if out.contains(c) {
            let k = choose|k: int| 0 <= k < out.len() && out[k] == c;
            assert(s[pos + k] == c);
        }
    } else {
        let t = tags[0];
        lemma_ordered_rest(s, pos, tags);
        assert forall|k: int| 0 <= k < reps.drop_first().len() implies !(
        #[trigger] reps.drop_first()[k]).contains(c) by {
            assert(reps.drop_first()[k] == reps[k + 1]);
        }
        lemma_splice_lacks(s, t.end, tags.drop_first(), reps.drop_first(), c);
        let a = s.subrange(pos, t.start);
        let b = reps[0];
        let rest = splice(s, t.end, tags.drop_first(), reps.drop_first());
        assert(out == a + b + rest);
        if out.contains(c) {
            let k = choose|k: int| 0 <= k < out.len() && out[k] == c;
            if k < a.len() {
                assert(s[pos + k] == c);
            } else if k < a.len() + b.len() {
                assert(b[k - a.len()] == c);
            } else {
                assert(rest[k - a.len() - b.len()] == c);
            }
        }
    }
}

/// A line without line feeds keeps none when tags are removed from it.
proof fn lemma_removed_line_lacks_newline(l: Seq<char>, id: u32)
    requires
        !l.contains('\n'),
    ensures
        !removed_line(l, id).contains('\n'),
{
    let tags = tags_of(l, false);
    let reps = removal_reps(l, tags, id);
    lemma_tags_from_ordered(l, 0, false);
    assert forall|k: int| 0 <= k < reps.len() implies !(#[trigger] reps[k]).contains('\n') by {
        let t = tags[k];
        assert(well_placed(l, t));
        if tag_id_value(l, t) != id {
            let x = l.subrange(t.start, t.end);
            if x.contains('\n') {
                let j = choose|j: int| 0 <= j < x.len() && x[j] == '\n';
                assert(l[t.start + j] == '\n');
            }
        }
    }
    lemma_splice_lacks(l, 0, tags, reps, '\n');
}

/// Whether some tag of the line carries id `id`.
pub open spec fn line_has_id(l: Seq<char>, id: u32) -> bool {
    exists|k: int|
        0 <= k < tags_of(l, false).len() && tag_id_value(l, #[trigger] tags_of(l, false)[k]) == id
}

/// Splicing each tag's own text over it gives the text back.
proof fn lemma_splice_texts(l: Seq<char>, pos: int, reps: Seq<Seq<char>>)
    requires
        0 <= pos <= l.len(),
        reps.len() == tags_from(l, pos, false).len(),
        forall|k: int|
            0 <= k < reps.len() ==> #[trigger] reps[k] == tag_text(
                l,
                tags_from(l, pos, false)[k],
            ),
    ensures
        splice(l, pos, tags_from(l, pos, false), reps) == l.subrange(pos, l.len() as int),
    decreases l.len() - pos,
{
    let ts = tags_from(l, pos, false);
    if ts.len() > 0 {
        lemma_tags_from_first(l, pos, false);
        let t = ts[0];
        lemma_splice_first(l, pos, ts, reps);
        let r2 = reps.drop_first();
        assert forall|k: int| 0 <= k < r2.len() implies #[trigger] r2[k] == tag_text(
            l,
            tags_from(l, t.end, false)[k],
        ) by {
            assert(r2[k] == reps[k + 1]);
            assert(ts[k + 1] == ts.drop_first()[k]);
        }
        lemma_splice_texts(l, t.end, r2);
        assert(reps[0] == l.subrange(t.start, t.end));
        assert(l.subrange(pos, t.start) + (l.subrange(t.start, t.end) + l.subrange(
            t.end,
            l.len() as int,
        )) =~= l.subrange(pos, l.len() as int));
    }
}

/// Dropping the parts of id `id` drops nothing when none has that id.
proof fn lemma_parts_without_none(cs: Seq<(Seq<char>, Seq<char>, Seq<char>)>, id: u32)
    requires
        forall|k: int| 0 <= k < cs.len() ==> id_value((#[trigger] cs[k]).0) != id,
    ensures
        parts_without(cs, id) == cs,
    decreases cs.len(),
{
    if cs.len() > 0 {
        lemma_parts_without_none(cs.drop_last(), id);
        assert(cs.last() == cs[cs.len() - 1]);
        assert(cs.drop_last().push(cs.last()) =~= cs);
    }
}

/// A line without a tag of id `id` loses nothing to its removal and has
/// no flag of that id.
proof fn lemma_removal_none(l: Seq<char>, n: int, id: u32)
    requires
        !line_has_id(l, id),
    ensures
        removed_line(l, id) == l,
        flags_without(line_flags(l, n), id) == line_flags(l, n),
{
    let ts = tags_of(l, false);
    let reps = removal_reps(l, ts, id);
    assert forall|k: int| 0 <= k < reps.len() implies #[trigger] reps[k] == tag_text(l, ts[k]) by {
        if tag_id_value(l, ts[k]) == id {
            assert(line_has_id(l, id));
        }
    }
    lemma_splice_texts(l, 0, reps);
    assert(l.subrange(0, l.len() as int) =~= l);
    let cs = tags_parts(l, ts);
    assert forall|k: int| 0 <= k < cs.len() implies id_value((#[trigger] cs[k]).0) != id by {
        if id_value(cs[k].0) == id {
            assert(tag_id_value(l, ts[k]) == id);
            assert(line_has_id(l, id));
        }
    }
    lemma_parts_without_none(cs, id);
    lemma_flags_of_tags_parts(l, ts, n);
    lemma_flags_of_parts_without(cs, strip_tags(l), n, id);
}

/// A line without a tag of id `id` is left as it is by an update of that
/// id, and so are its flags.
proof fn lemma_update_none(l: Seq<char>, n: int, id: u32, c: Seq<char>, label: Option<Seq<char>>)
    requires
        !line_has_id(l, id),
    ensures
        updated_line(l, id, c, label) == l,
        flags_updated(line_flags(l, n), id, c, label) == line_flags(l, n),
{
    let ts = tags_of(l, false);
    let reps = update_reps(l, ts, id, c, label);
    assert forall|k: int| 0 <= k < reps.len() implies #[trigger] reps[k] == tag_text(l, ts[k]) by {
        if tag_id_value(l, ts[k]) == id {
            assert(line_has_id(l, id));
        }
    }
    lemma_splice_texts(l, 0, reps);
    assert(l.subrange(0, l.len() as int) =~= l);
    let cs = tags_parts(l, ts);
    assert forall|k: int| 0 <= k < cs.len() implies id_value((#[trigger] cs[k]).0) != id by {
        if id_value(cs[k].0) == id {
            assert(tag_id_value(l, ts[k]) == id);
            assert(line_has_id(l, id));
        }
    }
    assert(parts_updated(cs, id, c, label) =~= cs);
    lemma_flags_of_tags_parts(l, ts, n);
    lemma_flags_of_parts_updated(cs, strip_tags(l), n, id, c, label);
}

proof fn lemma_lines_removal(ls: Seq<Seq<char>>, id: u32)
    requires
        forall|k: int| 0 <= k < ls.len() ==> !(#[trigger] ls[k]).contains('\n'),
        forall|k: int|
            0 <= k < ls.len() && line_has_id(#[trigger] ls[k], id) ==> !contains_seq(
                strip_tags(ls[k]),
                open_pat(),
            ),
    ensures
        flags_of_lines(ls.map_values(|l: Seq<char>| removed_line(l, id))) == flags_without(
            flags_of_lines(ls),
            id,
        ),
    decreases ls.len(),
{
    let ls2 = ls.map_values(|l: Seq<char>| removed_line(l, id));
    if ls.len() > 0 {
        let front = ls.drop_last();
        assert(ls2.drop_last() =~= front.map_values(|l: Seq<char>| removed_line(l, id)));
        assert forall|k: int| 0 <= k < front.len() implies !(#[trigger] front[k]).contains('\n') by {
            assert(front[k] == ls[k]);
        }
        assert forall|k: int| 0 <= k < front.len() && line_has_id(#[trigger] front[k], id) implies !contains_seq(
            strip_tags(front[k]),
            open_pat(),
        ) by {
            assert(front[k] == ls[k]);
        }
        lemma_lines_removal(front, id);
        assert(ls.last() == ls[ls.len() - 1]);
        if line_has_id(ls.last(), id) {
            lemma_line_removal(ls.last(), ls.len() as int, id);
        } else {
            lemma_removal_none(ls.last(), ls.len() as int, id);
        }
        assert(ls2.last() == removed_line(ls.last(), id));
        lemma_flags_without_concat(
            flags_of_lines(front),
            line_flags(ls.last(), ls.len() as int),
            id,
        );
    }
}

/// Removing flag `id`, then extracting the flags, gives the flags that were
/// there without those with that id: the others keep their ids, lines,
/// labels, comments and contexts.
///
/// This holds when, on each line that holds a tag with that id, the text
/// outside tags holds no tag opening `<flag:` (so that no new tag forms
/// where one was cut out), and no line left ending with a carriage return
/// and followed by a line feed (which splitting the lines again drops)
/// holds a tag opening.
pub proof fn law_remove_then_extract(content: Seq<char>, id: u32)
    requires
        forall|k: int|
            0 <= k < lines_of(content).len() && line_has_id(#[trigger] lines_of(content)[k], id)
                ==> !contains_seq(strip_tags(lines_of(content)[k]), open_pat()),
        cr_lines_unflagged(
            lines_of(content).map_values(|l: Seq<char>| removed_line(l, id)),
            ends_with_newline(content),
        ),
    ensures
        extracted(removed(content, id)) == flags_without(extracted(content), id),
{
    let ls = lines_of(content);
    let nl = ends_with_newline(content);
    let ls2 = ls.map_values(|l: Seq<char>| removed_line(l, id));
    lemma_lines_shape(content, 0);
    assert forall|k: int| 0 <= k < ls.len() implies !(#[trigger] ls[k]).contains('\n') by {}
    lemma_lines_removal(ls, id);
    assert forall|k: int| 0 <= k < ls2.len() implies !(#[trigger] ls2[k]).contains('\n') by {
        lemma_removed_line_lacks_newline(ls[k], id);
    }
    assert(no_newlines(ls2));
    if ls2.len() == 0 {
        assert(content.len() == 0);
        assert(rejoin(ls2, nl) =~= Seq::<char>::empty());
        assert(lines_of(Seq::<char>::empty()) =~= Seq::<Seq<char>>::empty());
    } else if nl || ls2.last().len() > 0 {
        lemma_lines_rejoin_cr(ls2, nl);
        lemma_flags_resplit(ls2, nl);
    } else {
        let front = ls2.drop_last();
        assert(tags_of(ls2.last(), false) =~= Seq::<TagSpan>::empty());
        assert(line_flags(ls2.last(), ls2.len() as int) =~= Seq::<FlagView>::empty());
        assert(flags_of_lines(ls2) =~= flags_of_lines(front));
        if front.len() == 0 {
            assert(rejoin(ls2, nl) == ls2[0]);
            assert(ls2[0] =~= Seq::<char>::empty());
            assert(lines_of(Seq::<char>::empty()) =~= Seq::<Seq<char>>::empty());
            assert(flags_of_lines(front) =~= Seq::<FlagView>::empty());
        } else {
            assert(rejoin(ls2, nl) =~= rejoin(front, true));
            assert(no_newlines(front)) by {
                assert forall|k: int| 0 <= k < front.len() implies !(#[trigger] front[k]).contains(
                    '\n',
                ) by {
                    assert(front[k] == ls2[k]);
                }
            }
            assert(cr_lines_unflagged(front, true)) by {
                assert forall|k: int|
                    0 <= k < front.len() && (k < front.len() - 1 || true) && (#[trigger] front[
                        k
                    ]).len() > 0 && front[k].last() == '\r' implies !contains_seq(
                    front[k],
                    open_pat(),
                ) by {
                    assert(front[k] == ls2[k]);
                }
            }
            lemma_lines_rejoin_cr(front, true);
            lemma_flags_resplit(front, true);
        }
    }
}

/// A comment that a new tag can carry: no line feed, no `<` and some
/// character that is not whitespace.
pub open spec fn fit_comment(c: Seq<char>) -> bool {
    &&& forall|k: int| 0 <= k < c.len() ==> #[trigger] c[k] != '<' && c[k] != '\n'
    &&& space_run_end(c, 0) < c.len()
}

/// A label that a new tag can carry: a nonempty run of word characters.
pub open spec fn fit_label(lab: Seq<char>) -> bool {
    lab.len() > 0 && forall|k: int| 0 <= k < lab.len() ==> is_word_char(#[trigger] lab[k])
}

/// The parts of tags after the tags with id `id` were rewritten to carry
/// `c` and, when given, `label`.
pub open spec fn parts_updated(
    cs: Seq<(Seq<char>, Seq<char>, Seq<char>)>,
    id: u32,
    c: Seq<char>,
    label: Option<Seq<char>>,
) -> Seq<(Seq<char>, Seq<char>, Seq<char>)> {
    cs.map_values(
        |p: (Seq<char>, Seq<char>, Seq<char>)|
            if id_value(p.0) == id {
                (
                    decimal(id as nat),
                    match label {
                        Some(l) => l,
                        None => p.1,
                    },
                    c.skip(space_run_end(c, 0)),
                )
            } else {
                p
            },
    )
}

/// A new tag in front: its parts come first, and the text outside tags is
/// that of the rest.
proof fn lemma_new_tag_parts(id: nat, lab: Seq<char>, c: Seq<char>, o2: Seq<char>)
    requires
        fit_label(lab),
        fit_comment(c),
    ensures
        ({
            let x = flag_tag(id, lab, c) + o2;
            &&& tags_parts(x, tags_of(x, false)) == seq![(decimal(id), lab, c.skip(space_run_end(c, 0)))]
                + tags_parts(o2, tags_of(o2, false))
            &&& strip_tags(x) == strip_tags(o2)
        }),
{
    let nt = flag_tag(id, lab, c);
    let x = nt + o2;
    let d = decimal(id);
    lemma_decimal_digits(id);
    let d1: int = 6 + d.len() as int;
    let l1: int = d1 + 1 + lab.len();
    let cc: int = l1 + 2 + c.len();
    assert(nt.len() == cc + 7);
    assert(nt.subrange(0, 6) =~= open_pat());
    assert(nt.subrange(6, d1) =~= d);
    assert(nt.subrange(d1 + 1, l1) =~= lab);
    assert(nt.subrange(l1 + 2, cc) =~= c);
    assert(nt.subrange(cc, cc + 7) =~= close_pat());
    lemma_tag_of_parts(nt, 0, d, lab, c);
    let tn = tag_at(nt, 0, false)->0;
    assert(agree_below(nt, x, nt.len() as int));
    lemma_tag_at_window(nt, x, nt.len() as int, 0, false);
    assert(tag_at(x, 0, false) == Some(tn));
    lemma_tags_from_shift(nt, o2, 0, false);
    let ys = tags_of(o2, false);
    assert(tags_from(x, 0, false) == seq![tn] + shift_spans(ys, nt.len() as int));
    let xs = tags_of(x, false);
    lemma_tags_from_ordered(o2, 0, false);
    lemma_parts_shift(nt, o2, ys);
    assert(tags_parts(x, xs) =~= seq![tag_parts(x, tn)] + tags_parts(
        x,
        shift_spans(ys, nt.len() as int),
    ));
    let w = space_run_end(c, 0);
    assert(tag_parts(x, tn) == (d, lab, c.skip(w))) by {
        assert(x.subrange(6, d1) =~= d);
        assert(x.subrange(d1 + 1, l1) =~= lab);
        lemma_run_ends(c, 0);
        assert forall|k: int| 0 <= k < c.len() - w implies #[trigger] x.subrange(l1 + 2 + w, cc)[k]
            == c.skip(w)[k] by {
            assert(nt.subrange(l1 + 2, cc)[w + k] == nt[l1 + 2 + w + k]);
        }
        assert(x.subrange(l1 + 2 + w, cc) =~= c.skip(w));
    }
    let nx = no_reps(xs.len());
    assert(nx.drop_first() =~= no_reps(ys.len()));
    lemma_splice_shift(nt, o2, 0, ys, no_reps(ys.len()));
    assert(xs.drop_first() =~= shift_spans(ys, nt.len() as int));
    assert(x.subrange(0, 0) =~= Seq::<char>::empty());
    assert(splice(x, 0, xs, nx) =~= splice(o2, 0, ys, no_reps(ys.len())));
}

/// The comment that extraction reads back from a tag written with comment
/// `c` after `": "`: `c` without its leading whitespace or, when `c` is
/// all whitespace, the last whitespace character before `</flag>`.
pub open spec fn read_back_comment(c: Seq<char>) -> Seq<char> {
    if space_run_end(c, 0) < c.len() {
        c.skip(space_run_end(c, 0))
    } else {
        seq![(seq![' '] + c).last()]
    }
}

/// No `</flag>` is found from `e` when none fits before the end and no line
/// feed comes first.
proof fn lemma_close_none(s: Seq<char>, e: int)
    requires
        0 <= e,
        forall|k: int| e <= k < s.len() ==> s[k] != '\n' && k + 7 > s.len(),
    ensures
        close_after(s, e) is None,
    decreases s.len() - e,
{
    if e < s.len() {
        lemma_close_none(s, e + 1);
    }
}

/// A tag whose comment is all whitespace (and no line feed) is found by
/// giving back its last whitespace character as the comment.
proof fn lemma_blank_tag_parts(id: nat, lab: Seq<char>, c: Seq<char>)
    requires
        fit_label(lab),
        space_run_end(c, 0) == c.len(),
        !c.contains('\n'),
    ensures
        ({
            let nt = flag_tag(id, lab, c);
            &&& tags_parts(nt, tags_of(nt, false)) == seq![
                (decimal(id), lab, seq![(seq![' '] + c).last()]),
            ]
            &&& strip_tags(nt) == Seq::<char>::empty()
        }),
{
    reveal(tag_at);
    let nt = flag_tag(id, lab, c);
    let d = decimal(id);
    lemma_decimal_digits(id);
    let d1: int = 6 + d.len() as int;
    let l1: int = d1 + 1 + lab.len();
    let p: int = l1 + 1;
    let cc: int = l1 + 2 + c.len();
    assert(nt.len() == cc + 7);
    assert(nt.subrange(0, 6) =~= open_pat());
    assert(nt.subrange(6, d1) =~= d);
    assert(nt.subrange(d1 + 1, l1) =~= lab);
    assert(nt.subrange(l1 + 2, cc) =~= c);
    assert(nt.subrange(cc, cc + 7) =~= close_pat());
    assert forall|j: int| 6 <= j < d1 implies is_digit(#[trigger] nt[j]) by {
        assert(nt.subrange(6, d1)[j - 6] == nt[j]);
    }
    assert(nt[d1] == '>');
    crate::tags::lemma_digit_run_exact(nt, 6, d1);
    assert forall|j: int| d1 + 1 <= j < l1 implies is_word_char(#[trigger] nt[j]) by {
        assert(nt.subrange(d1 + 1, l1)[j - d1 - 1] == nt[j]);
    }
    assert(nt[l1] == ':');
    crate::tags::lemma_word_run_exact(nt, d1 + 1, l1);
    lemma_run_ends(c, 0);
    assert forall|j: int| p <= j < cc implies is_space(#[trigger] nt[j]) by {
        if j > p {
            assert(nt.subrange(l1 + 2, cc)[j - l1 - 2] == nt[j]);
            assert(is_space(c[j - l1 - 2]));
        }
    }
    assert(nt[cc] == nt.subrange(cc, cc + 7)[0]);
    crate::tags::lemma_space_run_exact(nt, p, cc);
    assert forall|k: int| cc + 1 <= k < nt.len() implies nt[k] != '\n' && k + 7 > nt.len() by {
        assert(nt[k] == nt.subrange(cc, cc + 7)[k - cc]);
    }
    lemma_close_none(nt, cc + 1);
    let last = (seq![' '] + c).last();
    assert(nt[cc - 1] == last) by {
        if c.len() > 0 {
            assert(nt.subrange(l1 + 2, cc)[c.len() - 1] == nt[cc - 1]);
        }
    }
    assert(last != '\n') by {
        if c.len() > 0 {
            assert(c[c.len() - 1] == last);
            if last == '\n' {
                assert(c.contains('\n'));
            }
        }
    }
    assert(occurs_at(nt, cc, close_pat()));
    let t = TagSpan {
        start: 0,
        id_start: 6,
        id_end: d1,
        label_start: d1 + 1,
        label_end: l1,
        comment_start: cc - 1,
        comment_end: cc,
        end: cc + 7,
    };
    assert(tag_at(nt, 0, false) == Some(t));
    assert(tags_from(nt, nt.len() as int, false) == Seq::<TagSpan>::empty());
    assert(tags_of(nt, false) =~= seq![t]);
    assert(nt.subrange(cc - 1, cc) =~= seq![last]);
    assert(tags_parts(nt, seq![t]) =~= seq![(d, lab, seq![last])]);
    let e = no_reps(1);
    assert(e[0] == Seq::<char>::empty());
    assert(e.drop_first() =~= Seq::<Seq<char>>::empty());
    assert(seq![t].drop_first() =~= Seq::<TagSpan>::empty());
    assert(nt.subrange(nt.len() as int, nt.len() as int) =~= Seq::<char>::empty());
    assert(nt.subrange(0, 0) =~= Seq::<char>::empty());
    assert(splice(nt, t.end, seq![t].drop_first(), e.drop_first()) == nt.subrange(
        nt.len() as int,
        nt.len() as int,
    ));
    assert(splice(nt, 0, seq![t], e) == nt.subrange(0, 0) + e[0] + splice(
        nt,
        t.end,
        seq![t].drop_first(),
        e.drop_first(),
    ));
    assert(strip_tags(nt) == splice(nt, 0, seq![t], e));
    assert(strip_tags(nt) =~= Seq::<char>::empty());
}

/// What the scan of a line from `pos` rewrites for an update.
pub open spec fn update_result(
    l: Seq<char>,
    pos: int,
    id: u32,
    c: Seq<char>,
    label: Option<Seq<char>>,
) -> Seq<char> {
    splice(
        l,
        pos,
        tags_from(l, pos, false),
        update_reps(l, tags_from(l, pos, false), id, c, label),
    )
}

/// What the update scan from `pos` is meant to give.
pub open spec fn update_ok(
    l: Seq<char>,
    pos: int,
    id: u32,
    c: Seq<char>,
    label: Option<Seq<char>>,
) -> bool {
    let o = update_result(l, pos, id, c, label);
    &&& tags_parts(o, tags_of(o, false)) == parts_updated(
        tags_parts(l, tags_from(l, pos, false)),
        id,
        c,
        label,
    )
    &&& strip_tags(o) == outside_tags(l, pos)
}

proof fn lemma_update_base(l: Seq<char>, pos: int, id: u32, c: Seq<char>, label: Option<Seq<char>>)
    requires
        0 <= pos <= l.len(),
        tags_from(l, pos, false).len() == 0,
    ensures
        update_ok(l, pos, id, c, label),
{
    let ts = tags_from(l, pos, false);
    let o = update_result(l, pos, id, c, label);
    let pre = l.subrange(0, pos);
    let r = l.subrange(pos, l.len() as int);
    assert(l =~= pre + r);
    lemma_tags_from_shift(pre, r, 0, false);
    assert(o == r);
    assert(tags_of(o, false).len() == 0);
    assert(tags_parts(o, tags_of(o, false)) =~= Seq::<(Seq<char>, Seq<char>, Seq<char>)>::empty());
    assert(tags_parts(l, ts) =~= Seq::<(Seq<char>, Seq<char>, Seq<char>)>::empty());
    assert(parts_updated(tags_parts(l, ts), id, c, label) =~= Seq::<
        (Seq<char>, Seq<char>, Seq<char>),
    >::empty());
    assert(o.subrange(0, o.len() as int) =~= o);
}

/// The shape of the update scan at its first tag.
proof fn lemma_update_shape(l: Seq<char>, pos: int, id: u32, c: Seq<char>, label: Option<Seq<char>>)
    requires
        0 <= pos <= l.len(),
        tags_from(l, pos, false).len() > 0,
    ensures
        ({
            let ts = tags_from(l, pos, false);
            let t = ts[0];
            let g = l.subrange(pos, t.start);
            let r0 = update_reps(l, ts, id, c, label)[0];
            &&& pos <= t.start < t.end <= l.len()
            &&& tag_at(l, t.start, false) == Some(t)
            &&& well_placed(l, t)
            &&& ts.drop_first() == tags_from(l, t.end, false)
            &&& update_result(l, pos, id, c, label) == g + (r0 + update_result(
                l,
                t.end,
                id,
                c,
                label,
            ))
            &&& outside_tags(l, pos) == g + outside_tags(l, t.end)
            &&& tags_parts(l, ts) == seq![tag_parts(l, t)] + tags_parts(l, ts.drop_first())
        }),
{
    let ts = tags_from(l, pos, false);
    lemma_tags_from_ordered(l, pos, false);
    lemma_tags_from_first(l, pos, false);
    lemma_tag_at_well_placed(l, ts[0].start, false);
    let t = ts[0];
    let rest = ts.drop_first();
    let n = ts.len();
    let reps = update_reps(l, ts, id, c, label);
    assert(reps.drop_first() =~= update_reps(l, rest, id, c, label));
    lemma_splice_first(l, pos, ts, reps);
    let nr = no_reps(n);
    assert(nr.drop_first() =~= no_reps((n - 1) as nat));
    lemma_splice_first(l, pos, ts, nr);
    assert(outside_tags(l, pos) =~= l.subrange(pos, t.start) + outside_tags(l, t.end));
    assert(tags_parts(l, ts) =~= seq![tag_parts(l, t)] + tags_parts(l, rest));
}

/// The update scan at its first tag, given what it gives after that tag.
proof fn lemma_update_step(l: Seq<char>, pos: int, id: u32, c: Seq<char>, label: Option<Seq<char>>)
    requires
        0 <= pos <= l.len(),
        !l.contains('\n'),
        tags_from(l, pos, false).len() > 0,
        !contains_seq(outside_tags(l, pos), open_pat()),
        fit_comment(c),
        label matches Some(lb) ==> fit_label(lb),
        update_ok(l, tags_from(l, pos, false)[0].end, id, c, label),
    ensures
        update_ok(l, pos, id, c, label),
{
    lemma_update_shape(l, pos, id, c, label);
    lemma_append_shape(l, pos);
    let ts = tags_from(l, pos, false);
    let t = ts[0];
    let rest = ts.drop_first();
    let g = l.subrange(pos, t.start);
    let r0 = update_reps(l, ts, id, c, label)[0];
    let o2 = update_result(l, t.end, id, c, label);
    let x = r0 + o2;
    let out2 = outside_tags(l, t.end);
    assert(r0.len() > 0 && r0[0] == '<') by {
        if tag_id_value(l, t) == id {
            let lab = match label {
                Some(lb) => lb,
                None => tag_label(l, t),
            };
            assert(r0 == flag_tag(id as nat, lab, c));
            assert(r0[0] == open_pat()[0]);
        } else {
            assert(r0 == l.subrange(t.start, t.end));
        }
    }
    assert(x[0] == r0[0]);
    assert(x.subrange(0, 0) =~= out2.subrange(0, 0));
    lemma_gap_no_open(g, x, out2);
    lemma_gap_parts_open(g, x);
    let c0 = tag_parts(l, t);
    let ps = tags_parts(l, ts);
    assert(parts_updated(ps, id, c, label) =~= seq![parts_updated(seq![c0], id, c, label)[0]]
        + parts_updated(tags_parts(l, rest), id, c, label));
    assert(id_value(c0.0) == tag_id_value(l, t));
    if tag_id_value(l, t) == id {
        let lab = match label {
            Some(lb) => lb,
            None => tag_label(l, t),
        };
        assert(fit_label(lab)) by {
            if label is None {
                assert forall|k: int| 0 <= k < lab.len() implies is_word_char(#[trigger] lab[k]) by {
                    assert(lab[k] == l[t.label_start + k]);
                }
            }
        }
        assert(r0 == flag_tag(id as nat, lab, c));
        lemma_new_tag_parts(id as nat, lab, c, o2);
    } else {
        assert(r0 == l.subrange(t.start, t.end));
        if rest.len() == 0 {
            assert(o2 == l.subrange(t.end, l.len() as int));
        }
        lemma_kept_parts(l, t, rest, o2);
    }
}

proof fn lemma_update_scan(l: Seq<char>, pos: int, id: u32, c: Seq<char>, label: Option<Seq<char>>)
    requires
        0 <= pos <= l.len(),
        !l.contains('\n'),
        !contains_seq(outside_tags(l, pos), open_pat()),
        fit_comment(c),
        label matches Some(lb) ==> fit_label(lb),
    ensures
        update_ok(l, pos, id, c, label),
    decreases l.len() - pos,
{
    if tags_from(l, pos, false).len() == 0 {
        lemma_update_base(l, pos, id, c, label);
    } else {
        lemma_append_shape(l, pos);
        let t = tags_from(l, pos, false)[0];
        lemma_update_scan(l, t.end, id, c, label);
        lemma_update_step(l, pos, id, c, label);
    }
}

/// The flags after those with id `id` were rewritten to carry the comment
/// `c` (without its leading whitespace) and, when given, `label`.
pub open spec fn flags_updated(
    fs: Seq<FlagView>,
    id: u32,
    c: Seq<char>,
    label: Option<Seq<char>>,
) -> Seq<FlagView> {
    fs.map_values(
        |f: FlagView|
            if f.id == id {
                FlagView {
                    id: f.id,
                    line: f.line,
                    context: f.context,
                    label: match label {
                        Some(l) => l,
                        None => f.label,
                    },
                    comment: c.skip(space_run_end(c, 0)),
                }
            } else {
                f
            },
    )
}

proof fn lemma_flags_of_parts_updated(
    cs: Seq<(Seq<char>, Seq<char>, Seq<char>)>,
    ctx: Seq<char>,
    n: int,
    id: u32,
    c: Seq<char>,
    label: Option<Seq<char>>,
)
    ensures
        flags_updated(flags_of_parts(cs, ctx, n), id, c, label) == flags_of_parts(
            parts_updated(cs, id, c, label),
            ctx,
            n,
        ),
    decreases cs.len(),
{
    if cs.len() > 0 {
        let front = cs.drop_last();
        lemma_flags_of_parts_updated(front, ctx, n, id, c, label);
        let ups = parts_updated(cs, id, c, label);
        assert(ups.drop_last() =~= parts_updated(front, id, c, label));
        let p = cs.last();
        assert(ups.last() == ups[cs.len() - 1]);
        lemma_decimal_digits(id as nat);
        let f = flags_of_parts(front, ctx, n);
        if 0 < id_value(p.0) <= u32::MAX {
            let fp = FlagView {
                id: id_value(p.0) as u32,
                line: n,
                context: ctx,
                label: p.1,
                comment: p.2,
            };
            assert(flags_updated(f.push(fp), id, c, label) =~= flags_updated(f, id, c, label).push(
                flags_updated(seq![fp], id, c, label)[0],
            ));
        } else {
            assert(id_value(p.0) != id || id == 0);
        }
    } else {
        assert(flags_updated(Seq::<FlagView>::empty(), id, c, label) =~= Seq::<FlagView>::empty());
        assert(parts_updated(cs, id, c, label) =~= Seq::<(Seq<char>, Seq<char>, Seq<char>)>::empty());
    }
}

/// Rewriting the tags with id `id` of a line whose text outside tags holds
/// no `<flag:` rewrites exactly those flags of the line.
proof fn lemma_line_update(l: Seq<char>, n: int, id: u32, c: Seq<char>, label: Option<Seq<char>>)
    requires
        !l.contains('\n'),
        !contains_seq(strip_tags(l), open_pat()),
        fit_comment(c),
        label matches Some(lb) ==> fit_label(lb),
    ensures
        line_flags(updated_line(l, id, c, label), n) == flags_updated(line_flags(l, n), id, c, label),
{
    lemma_update_scan(l, 0, id, c, label);
    let o = updated_line(l, id, c, label);
    assert(o == update_result(l, 0, id, c, label));
    lemma_flags_of_tags_parts(o, tags_of(o, false), n);
    lemma_flags_of_tags_parts(l, tags_of(l, false), n);
    lemma_flags_of_parts_updated(tags_parts(l, tags_of(l, false)), strip_tags(l), n, id, c, label);
}

proof fn lemma_concat_lacks(a: Seq<char>, b: Seq<char>, ch: char)
    requires
        !a.contains(ch),
        !b.contains(ch),
    ensures
        !(a + b).contains(ch),
{
    if (a + b).contains(ch) {
        let j = choose|j: int| 0 <= j < (a + b).len() && (a + b)[j] == ch;
        if j < a.len() {
            assert(a[j] == ch);
        } else {
            assert(b[j - a.len()] == ch);
        }
    }
}

/// A new tag holds no line feed.
proof fn lemma_flag_tag_lacks_newline(id: nat, lab: Seq<char>, c: Seq<char>)
    requires
        !lab.contains('\n'),
        !c.contains('\n'),
    ensures
        !flag_tag(id, lab, c).contains('\n'),
{
    let d = decimal(id);
    lemma_decimal_digits(id);
    assert(!open_pat().contains('\n')) by {
        if open_pat().contains('\n') {
            let j = choose|j: int| 0 <= j < open_pat().len() && open_pat()[j] == '\n';
        }
    }
    assert(!close_pat().contains('\n')) by {
        if close_pat().contains('\n') {
            let j = choose|j: int| 0 <= j < close_pat().len() && close_pat()[j] == '\n';
        }
    }
    assert(!d.contains('\n')) by {
        if d.contains('\n') {
            let j = choose|j: int| 0 <= j < d.len() && d[j] == '\n';
            assert(is_digit(d[j]));
        }
    }
    assert(!seq!['>'].contains('\n')) by {
        if seq!['>'].contains('\n') {
            let j = choose|j: int| 0 <= j < 1 && seq!['>'][j] == '\n';
        }
    }
    assert(!seq![':', ' '].contains('\n')) by {
        if seq![':', ' '].contains('\n') {
            let j = choose|j: int| 0 <= j < 2 && seq![':', ' '][j] == '\n';
        }
    }
    lemma_concat_lacks(open_pat(), d, '\n');
    lemma_concat_lacks(open_pat() + d, seq!['>'], '\n');
    lemma_concat_lacks(open_pat() + d + seq!['>'], lab, '\n');
    lemma_concat_lacks(open_pat() + d + seq!['>'] + lab, seq![':', ' '], '\n');
    lemma_concat_lacks(open_pat() + d + seq!['>'] + lab + seq![':', ' '], c, '\n');
    lemma_concat_lacks(open_pat() + d + seq!['>'] + lab + seq![':', ' '] + c, close_pat(), '\n');
}

/// An updated line holds no line feed.
proof fn lemma_updated_line_lacks_newline(
    l: Seq<char>,
    id: u32,
    c: Seq<char>,
    label: Option<Seq<char>>,
)
    requires
        !l.contains('\n'),
        fit_comment(c),
        label matches Some(lb) ==> fit_label(lb),
    ensures
        !updated_line(l, id, c, label).contains('\n'),
{
    let tags = tags_of(l, false);
    let reps = update_reps(l, tags, id, c, label);
    lemma_tags_from_ordered(l, 0, false);
    assert forall|k: int| 0 <= k < reps.len() implies !(#[trigger] reps[k]).contains('\n') by {
        let t = tags[k];
        assert(well_placed(l, t));
        if tag_id_value(l, t) == id {
            let lab = match label {
                Some(lb) => lb,
                None => tag_label(l, t),
            };
            assert(fit_label(lab)) by {
                if label is None {
                    assert forall|m: int| 0 <= m < lab.len() implies is_word_char(#[trigger] lab[m]) by {
                        assert(lab[m] == l[t.label_start + m]);
                    }
                }
            }
            assert(!lab.contains('\n')) by {
                if lab.contains('\n') {
                    let j = choose|j: int| 0 <= j < lab.len() && lab[j] == '\n';
                    assert(is_word_char(lab[j]));
                }
            }
            assert(!c.contains('\n')) by {
                if c.contains('\n') {
                    let j = choose|j: int| 0 <= j < c.len() && c[j] == '\n';
                }
            }
            lemma_flag_tag_lacks_newline(id as nat, lab, c);
        } else {
            let x = reps[k];
            if x.contains('\n') {
                let j = choose|j: int| 0 <= j < x.len() && x[j] == '\n';
                assert(l[t.start + j] == '\n');
            }
        }
    }
    lemma_splice_lacks(l, 0, tags, reps, '\n');
}

proof fn lemma_lines_update(ls: Seq<Seq<char>>, id: u32, c: Seq<char>, label: Option<Seq<char>>)
    requires
        forall|k: int| 0 <= k < ls.len() ==> !(#[trigger] ls[k]).contains('\n'),
        forall|k: int|
            0 <= k < ls.len() && line_has_id(#[trigger] ls[k], id) ==> !contains_seq(
                strip_tags(ls[k]),
                open_pat(),
            ),
        fit_comment(c),
        label matches Some(lb) ==> fit_label(lb),
    ensures
        flags_of_lines(ls.map_values(|l: Seq<char>| updated_line(l, id, c, label))) == flags_updated(
            flags_of_lines(ls),
            id,
            c,
            label,
        ),
    decreases ls.len(),
{
    let ls2 = ls.map_values(|l: Seq<char>| updated_line(l, id, c, label));
    if ls.len() > 0 {
        let front = ls.drop_last();
        assert(ls2.drop_last() =~= front.map_values(|l: Seq<char>| updated_line(l, id, c, label)));
        assert forall|k: int| 0 <= k < front.len() implies !(#[trigger] front[k]).contains('\n') by {
            assert(front[k] == ls[k]);
        }
        assert forall|k: int| 0 <= k < front.len() && line_has_id(#[trigger] front[k], id) implies !contains_seq(
            strip_tags(front[k]),
            open_pat(),
        ) by {
            assert(front[k] == ls[k]);
        }
        lemma_lines_update(front, id, c, label);
        assert(ls.last() == ls[ls.len() - 1]);
        if line_has_id(ls.last(), id) {
            lemma_line_update(ls.last(), ls.len() as int, id, c, label);
        } else {
            lemma_update_none(ls.last(), ls.len() as int, id, c, label);
        }
        assert(ls2.last() == updated_line(ls.last(), id, c, label));
        let a = flags_of_lines(front);
        let b = line_flags(ls.last(), ls.len() as int);
        assert(flags_updated(a + b, id, c, label) =~= flags_updated(a, id, c, label)
            + flags_updated(b, id, c, label));
    } else {
        assert(flags_updated(Seq::<FlagView>::empty(), id, c, label) =~= Seq::<FlagView>::empty());
    }
}

/// Updating flag `id`, then extracting the flags, gives the flags that were
/// there with those of that id rewritten: they carry the sanitized new
/// comment without its leading whitespace and, when one is given, the new
/// label; all flags keep their ids, lines and contexts, and the other flags
/// are unchanged.
///
/// This holds when, on each line that holds a tag with that id, the text
/// outside tags holds no tag opening `<flag:`, the new comment holds no
/// line feed and, sanitized, some character that is not whitespace, a new
/// label is a nonempty run of word characters, and no updated line that
/// ends with a carriage return and is followed by a line feed (which
/// splitting the lines again drops) holds a tag opening.
pub proof fn law_update_then_extract(
    content: Seq<char>,
    id: u32,
    comment: Seq<char>,
    label: Option<Seq<char>>,
)
    requires
        forall|k: int|
            0 <= k < lines_of(content).len() && line_has_id(#[trigger] lines_of(content)[k], id)
                ==> !contains_seq(strip_tags(lines_of(content)[k]), open_pat()),
        !comment.contains('\n'),
        space_run_end(sanitized(comment), 0) < sanitized(comment).len(),
        label matches Some(lb) ==> fit_label(lb),
        cr_lines_unflagged(
            lines_of(content).map_values(
                |l: Seq<char>| updated_line(l, id, sanitized(comment), label),
            ),
            ends_with_newline(content),
        ),
    ensures
        extracted(updated(content, id, comment, label)) == flags_updated(
            extracted(content),
            id,
            sanitized(comment),
            label,
        ),
{
    let c = sanitized(comment);
    lemma_sanitized_chars(comment);
    assert forall|k: int| 0 <= k < c.len() implies #[trigger] c[k] != '<' && c[k] != '\n' by {
        if c[k] == '\n' {
            assert(c.contains('\n'));
        }
    }
    assert(fit_comment(c));
    let ls = lines_of(content);
    let nl = ends_with_newline(content);
    let ls2 = ls.map_values(|l: Seq<char>| updated_line(l, id, c, label));
    lemma_lines_shape(content, 0);
    assert forall|k: int| 0 <= k < ls.len() implies !(#[trigger] ls[k]).contains('\n') by {}
    lemma_lines_update(ls, id, c, label);
    assert forall|k: int| 0 <= k < ls2.len() implies !(#[trigger] ls2[k]).contains('\n') by {
        lemma_updated_line_lacks_newline(ls[k], id, c, label);
    }
    if ls2.len() == 0 {
        assert(content.len() == 0);
        assert(rejoin(ls2, nl) =~= Seq::<char>::empty());
        assert(lines_of(Seq::<char>::empty()) =~= Seq::<Seq<char>>::empty());
    } else {
        if !nl {
            lemma_updated_line_shape(ls.last(), id, c, label);
            assert(ls2.last() == updated_line(ls.last(), id, c, label));
        }
        lemma_lines_rejoin_cr(ls2, nl);
        lemma_flags_resplit(ls2, nl);
    }
}

/// A sanitized comment holds neither `<` nor `>`, so it can neither close
/// the flag tag around it nor open markup; nor does it gain a line feed.
pub proof fn law_sanitized_comment_is_inert(comment: Seq<char>)
    ensures
        !sanitized(comment).contains('<'),
        !sanitized(comment).contains('>'),
        !comment.contains('\n') ==> !sanitized(comment).contains('\n'),
{
    lemma_sanitized_chars(comment);
    let x = sanitized(comment);
    if x.contains('<') {
        let j = choose|j: int| 0 <= j < x.len() && x[j] == '<';
    }
    if x.contains('>') {
        let j = choose|j: int| 0 <= j < x.len() && x[j] == '>';
    }
}

} // verus!
