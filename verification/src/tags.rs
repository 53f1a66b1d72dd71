//! The grammar of inline flag tags, `<flag:ID>LABEL: COMMENT</flag>`, and a
//! scanner for it.
//!
//! A tag is recognised the way the pattern
//! `<flag:(\d+)>(\w+):\s*(.+?)</flag>` matches with leftmost-first
//! semantics: `ID` is a run of Unicode decimal digits (`\d`), `LABEL` a
//! run of Unicode word characters (`\w`), the whitespace after the colon
//! is skipped, and the comment
//! runs lazily up to the first following `</flag>` without crossing a line
//! feed. Tags are found left to right without overlap. In "comment only"
//! mode the label must be exactly `Comment`.
use vstd::prelude::*;
use crate::text::{all_digits, chars_to_string, copy_range, decimal_value, is_digit, occurs_at, occurs_at_exec, parse_digits, push_all, seq_views};

verus! {

/// Where the parts of one tag lie in the scanned text: the tag spans
/// `start..end`; the id digits, the label and the comment span the
/// corresponding index ranges.
pub struct TagSpan {
    pub start: int,
    pub id_start: int,
    pub id_end: int,
    pub label_start: int,
    pub label_end: int,
    pub comment_start: int,
    pub comment_end: int,
    pub end: int,
}

/// The executable form of [`TagSpan`].
#[derive(Clone, Copy)]
pub struct Tag {
    pub start: usize,
    pub id_start: usize,
    pub id_end: usize,
    pub label_start: usize,
    pub label_end: usize,
    pub comment_start: usize,
    pub comment_end: usize,
    pub end: usize,
}

impl Tag {
    pub open spec fn span(self) -> TagSpan {
        TagSpan {
            start: self.start as int,
            id_start: self.id_start as int,
            id_end: self.id_end as int,
            label_start: self.label_start as int,
            label_end: self.label_end as int,
            comment_start: self.comment_start as int,
            comment_end: self.comment_end as int,
            end: self.end as int,
        }
    }
}

/// The spans of a sequence of tags.
pub open spec fn spans(tags: Seq<Tag>) -> Seq<TagSpan> {
    tags.map_values(|t: Tag| t.span())
}

/// `<flag:`
pub open spec fn open_pat() -> Seq<char> {
    seq!['<', 'f', 'l', 'a', 'g', ':']
}

/// `</flag>`
pub open spec fn close_pat() -> Seq<char> {
    seq!['<', '/', 'f', 'l', 'a', 'g', '>']
}

/// `Comment`
pub open spec fn comment_label() -> Seq<char> {
    seq!['C', 'o', 'm', 'm', 'e', 'n', 't']
}

/// What the `regex` crate makes of a pattern and a text: whether the
/// pattern matches somewhere in the text, or `None` when the pattern does
/// not compile.
pub uninterp spec fn regex_matches(pattern: Seq<char>, text: Seq<char>) -> Option<bool>;

/// Compiles `pattern` with `regex::Regex::new` and tests it on `text` with
/// `is_match`. The answer is taken to be a function of the two texts, named
/// `regex_matches`; nothing more is claimed of it.
#[verifier::external_body]
fn regex_is_match(pattern: &str, text: &str) -> (r: Option<bool>)
    ensures
        r == regex_matches(pattern@, text@),
{
    match regex::Regex::new(pattern) {
        Ok(re) => Some(re.is_match(text)),
        Err(_) => None,
    }
}

/// Whether the one-character text `c` is matched by the character class
/// `pattern` of the `regex` crate.
pub open spec fn in_regex_class(pattern: Seq<char>, c: char) -> bool {
    regex_matches(pattern, seq![c]) == Some(true)
}

fn in_regex_class_exec(pattern: &str, c: char) -> (r: bool)
    ensures
        r == in_regex_class(pattern@, c),
{
    let v: Vec<char> = vec![c];
    assert(v@ =~= seq![c]);
    let text = chars_to_string(&v);
    match regex_is_match(pattern, text.as_str()) {
        Some(b) => b,
        None => false,
    }
}

/// The pattern's `\d`: among ASCII characters the digits `0`-`9`, beyond
/// them what the `regex` crate's Unicode `\d` (decimal numbers) matches.
pub open spec fn is_id_digit(c: char) -> bool {
    if c <= '\u{7f}' {
        is_digit(c)
    } else {
        in_regex_class("\\d"@, c)
    }
}

/// The pattern's `\w`: among ASCII characters the letters, digits and
/// `_`, beyond them what the `regex` crate's Unicode `\w` matches.
pub open spec fn is_word_char(c: char) -> bool {
    if c <= '\u{7f}' {
        ('a' <= c <= 'z') || ('A' <= c <= 'Z') || is_digit(c) || c == '_'
    } else {
        in_regex_class("\\w"@, c)
    }
}

pub fn is_id_digit_exec(c: char) -> (r: bool)
    ensures
        r == is_id_digit(c),
{
    if c <= '\u{7f}' {
        '0' <= c && c <= '9'
    } else {
        in_regex_class_exec("\\d", c)
    }
}

/// The Unicode `White_Space` characters.
pub open spec fn is_space(c: char) -> bool {
    ('\u{9}' <= c <= '\u{d}') || c == ' ' || c == '\u{85}' || c == '\u{a0}' || c == '\u{1680}'
        || ('\u{2000}' <= c <= '\u{200a}') || c == '\u{2028}' || c == '\u{2029}' || c
        == '\u{202f}' || c == '\u{205f}' || c == '\u{3000}'
}

pub fn is_word_char_exec(c: char) -> (r: bool)
    ensures
        r == is_word_char(c),
{
    if c <= '\u{7f}' {
        ('a' <= c && c <= 'z') || ('A' <= c && c <= 'Z') || ('0' <= c && c <= '9') || c == '_'
    } else {
        in_regex_class_exec("\\w", c)
    }
}

pub fn is_space_exec(c: char) -> (r: bool)
    ensures
        r == is_space(c),
{
    ('\u{9}' <= c && c <= '\u{d}') || c == ' ' || c == '\u{85}' || c == '\u{a0}' || c
        == '\u{1680}' || ('\u{2000}' <= c && c <= '\u{200a}') || c == '\u{2028}' || c
        == '\u{2029}' || c == '\u{202f}' || c == '\u{205f}' || c == '\u{3000}'
}

/// The end of the run of digits starting at `i`.
pub open spec fn digit_run_end(s: Seq<char>, i: int) -> int
    decreases s.len() - i,
{
    if 0 <= i < s.len() && is_id_digit(s[i]) {
        digit_run_end(s, i + 1)
    } else {
        i
    }
}

/// The end of the run of word characters starting at `i`.
pub open spec fn word_run_end(s: Seq<char>, i: int) -> int
    decreases s.len() - i,
{
    if 0 <= i < s.len() && is_word_char(s[i]) {
        word_run_end(s, i + 1)
    } else {
        i
    }
}

/// The end of the run of whitespace starting at `i`.
pub open spec fn space_run_end(s: Seq<char>, i: int) -> int
    decreases s.len() - i,
{
    if 0 <= i < s.len() && is_space(s[i]) {
        space_run_end(s, i + 1)
    } else {
        i
    }
}

/// The first `e' >= e` where `</flag>` occurs, provided no line feed lies
/// in `e..e'`.
pub open spec fn close_after(s: Seq<char>, e: int) -> Option<int>
    decreases s.len() - e,
{
    if e < 0 || e >= s.len() {
        None
    } else if occurs_at(s, e, close_pat()) {
        Some(e)
    } else if s[e] == '\n' {
        None
    } else {
        close_after(s, e + 1)
    }
}

/// The tag that starts exactly at `i`, if any.
#[verifier::opaque]
pub open spec fn tag_at(s: Seq<char>, i: int, only_comment: bool) -> Option<TagSpan> {
    if !occurs_at(s, i, open_pat()) {
        None
    } else {
        let d0 = i + 6;
        let d1 = digit_run_end(s, d0);
        if d1 == d0 || d1 >= s.len() || s[d1] != '>' {
            None
        } else {
            let l0 = d1 + 1;
            let l1 = word_run_end(s, l0);
            if l1 == l0 || l1 >= s.len() || s[l1] != ':' || (only_comment && s.subrange(l0, l1)
                != comment_label()) {
                None
            } else {
                let p = l1 + 1;
                let q = space_run_end(s, p);
                if q < s.len() && s[q] != '\n' && close_after(s, q + 1) is Some {
                    let e = close_after(s, q + 1)->0;
                    Some(
                        TagSpan {
                            start: i,
                            id_start: d0,
                            id_end: d1,
                            label_start: l0,
                            label_end: l1,
                            comment_start: q,
                            comment_end: e,
                            end: e + 7,
                        },
                    )
                } else if q > p && s[q - 1] != '\n' && occurs_at(s, q, close_pat()) {
                    Some(
                        TagSpan {
                            start: i,
                            id_start: d0,
                            id_end: d1,
                            label_start: l0,
                            label_end: l1,
                            comment_start: q - 1,
                            comment_end: q,
                            end: q + 7,
                        },
                    )
                } else {
                    None
                }
            }
        }
    }
}

/// All tags of `s` found scanning left to right from `pos`, each search
/// resuming where the previous tag ended.
pub open spec fn tags_from(s: Seq<char>, pos: int, only_comment: bool) -> Seq<TagSpan>
    decreases s.len() - pos,
{
    if pos < 0 || pos >= s.len() {
        seq![]
    } else {
        match tag_at(s, pos, only_comment) {
            Some(t) => if pos < t.end <= s.len() {
                seq![t] + tags_from(s, t.end, only_comment)
            } else {
                seq![]
            },
            None => tags_from(s, pos + 1, only_comment),
        }
    }
}

/// The tags of `s`.
pub open spec fn tags_of(s: Seq<char>, only_comment: bool) -> Seq<TagSpan> {
    tags_from(s, 0, only_comment)
}

/// The id digits of a tag.
pub open spec fn tag_id_text(s: Seq<char>, t: TagSpan) -> Seq<char> {
    s.subrange(t.id_start, t.id_end)
}

/// The label of a tag.
pub open spec fn tag_label(s: Seq<char>, t: TagSpan) -> Seq<char> {
    s.subrange(t.label_start, t.label_end)
}

/// The comment of a tag.
pub open spec fn tag_comment(s: Seq<char>, t: TagSpan) -> Seq<char> {
    s.subrange(t.comment_start, t.comment_end)
}

/// The whole text of a tag.
pub open spec fn tag_text(s: Seq<char>, t: TagSpan) -> Seq<char> {
    s.subrange(t.start, t.end)
}

/// The numeric value of a tag's id.
pub open spec fn tag_id_value(s: Seq<char>, t: TagSpan) -> nat {
    id_value(tag_id_text(s, t))
}

/// The value an id text parses to as a `u32`: its decimal value when it is
/// all ASCII digits; other digits do not parse, and such an id gets a value
/// above every `u32`.
pub open spec fn id_value(ds: Seq<char>) -> nat {
    if all_digits(ds) {
        decimal_value(ds)
    } else {
        u32::MAX as nat + 1
    }
}

/// The id of a tag as a `u32` parse gives it: `Some` of the value when it
/// fits, `None` when it does not (too large, or not all ASCII digits).
pub fn tag_id_exec(s: &Vec<char>, t: &Tag) -> (r: Option<u64>)
    requires
        well_placed(s@, t.span()),
    ensures
        match r {
            Some(v) => v as nat == tag_id_value(s@, t.span()) && v <= u32::MAX,
            None => tag_id_value(s@, t.span()) > u32::MAX,
        },
{
    let mut k = t.id_start;
    while k < t.id_end
        invariant
            well_placed(s@, t.span()),
            t.id_start <= k <= t.id_end,
            forall|j: int| t.id_start <= j < k ==> is_digit(#[trigger] s@[j]),
        decreases t.id_end - k,
    {
        if !('0' <= s[k] && s[k] <= '9') {
            proof {
                let ds = tag_id_text(s@, t.span());
                assert(ds[k - t.id_start] == s@[k as int]);
                assert(!all_digits(ds));
            }
            return None;
        }
        k = k + 1;
    }
    let ghost ds = tag_id_text(s@, t.span());
    assert(all_digits(ds)) by {
        assert forall|j: int| 0 <= j < ds.len() implies is_digit(#[trigger] ds[j]) by {
            assert(ds[j] == s@[t.id_start + j]);
        }
    }
    parse_digits(s, t.id_start, t.id_end, 4294967295)
}

/// The layout facts that every tag found at `i` satisfies.
pub open spec fn well_placed(s: Seq<char>, t: TagSpan) -> bool {
    &&& 0 <= t.start
    &&& t.start + 6 == t.id_start
    &&& t.id_start < t.id_end
    &&& t.id_end + 1 == t.label_start
    &&& t.label_start < t.label_end
    &&& t.label_end < t.comment_start + 1
    &&& t.comment_start < t.comment_end
    &&& t.comment_end + 7 == t.end
    &&& t.end <= s.len()
    &&& forall|k: int| t.id_start <= k < t.id_end ==> is_id_digit(#[trigger] s[k])
    &&& forall|k: int| t.label_start <= k < t.label_end ==> is_word_char(#[trigger] s[k])
    &&& occurs_at(s, t.start, open_pat())
    &&& occurs_at(s, t.comment_end, close_pat())
    &&& s[t.id_end] == '>'
    &&& s[t.label_end] == ':'
}

/// Splices replacement texts over the given tags: the text between tags is
/// kept and tag `k` becomes `reps[k]`.
pub open spec fn splice(s: Seq<char>, pos: int, tags: Seq<TagSpan>, reps: Seq<Seq<char>>) -> Seq<
    char,
>
    decreases tags.len(),
{
    if tags.len() == 0 {
        s.subrange(pos, s.len() as int)
    } else {
        s.subrange(pos, tags[0].start) + reps[0] + splice(
            s,
            tags[0].end,
            tags.drop_first(),
            reps.drop_first(),
        )
    }
}

/// Tags that lie in order inside `s[pos..]`, without overlap.
pub open spec fn ordered_from(s: Seq<char>, pos: int, tags: Seq<TagSpan>) -> bool {
    &&& 0 <= pos <= s.len()
    &&& forall|k: int| 0 <= k < tags.len() ==> well_placed(s, #[trigger] tags[k])
    &&& tags.len() > 0 ==> pos <= tags[0].start
    &&& forall|k: int|
        0 <= k < tags.len() - 1 ==> #[trigger] tags[k].end <= tags[k + 1].start
}

pub proof fn lemma_run_ends(s: Seq<char>, i: int)
    requires
        0 <= i <= s.len(),
    ensures
        i <= digit_run_end(s, i) <= s.len(),
        forall|k: int| i <= k < digit_run_end(s, i) ==> is_id_digit(#[trigger] s[k]),
        digit_run_end(s, i) < s.len() ==> !is_id_digit(s[digit_run_end(s, i)]),
        i <= word_run_end(s, i) <= s.len(),
        forall|k: int| i <= k < word_run_end(s, i) ==> is_word_char(#[trigger] s[k]),
        word_run_end(s, i) < s.len() ==> !is_word_char(s[word_run_end(s, i)]),
        i <= space_run_end(s, i) <= s.len(),
        forall|k: int| i <= k < space_run_end(s, i) ==> is_space(#[trigger] s[k]),
        space_run_end(s, i) < s.len() ==> !is_space(s[space_run_end(s, i)]),
    decreases s.len() - i,
{
    if i < s.len() {
        lemma_run_ends(s, i + 1);
    }
}

pub proof fn lemma_close_after(s: Seq<char>, e: int)
    requires
        0 <= e,
    ensures
        close_after(s, e) matches Some(c) ==> {
            &&& e <= c
            &&& c + 7 <= s.len()
            &&& occurs_at(s, c, close_pat())
            &&& forall|k: int| e <= k < c ==> s[k] != '\n' && !occurs_at(s, k, close_pat())
        },
    decreases s.len() - e,
{
    if e < s.len() && !occurs_at(s, e, close_pat()) && s[e] != '\n' {
        lemma_close_after(s, e + 1);
    }
}

pub proof fn lemma_tag_at_well_placed(s: Seq<char>, i: int, oc: bool)
    requires
        0 <= i,
    ensures
        tag_at(s, i, oc) matches Some(t) ==> well_placed(s, t) && t.start == i,
{
    reveal(tag_at);
    if occurs_at(s, i, open_pat()) {
        lemma_run_ends(s, i + 6);
        let d1 = digit_run_end(s, i + 6);
        if d1 < s.len() {
            lemma_run_ends(s, d1 + 1);
            let l1 = word_run_end(s, d1 + 1);
            if l1 < s.len() {
                lemma_run_ends(s, l1 + 1);
                let q = space_run_end(s, l1 + 1);
                lemma_close_after(s, q + 1);
            }
        }
    }
}

pub proof fn lemma_tags_from_ordered(s: Seq<char>, pos: int, oc: bool)
    requires
        0 <= pos <= s.len(),
    ensures
        ordered_from(s, pos, tags_from(s, pos, oc)),
    decreases s.len() - pos,
{
    if pos < s.len() {
        lemma_tag_at_well_placed(s, pos, oc);
        match tag_at(s, pos, oc) {
            Some(t) => {
                if t.end > pos {
                    lemma_tags_from_ordered(s, t.end, oc);
                    let rest = tags_from(s, t.end, oc);
                    let all = seq![t] + rest;
                    assert(all == tags_from(s, pos, oc));
                    assert forall|k: int| 0 <= k < all.len() implies well_placed(
                        s,
                        #[trigger] all[k],
                    ) by {
                        if k > 0 {
                            assert(all[k] == rest[k - 1]);
                        }
                    }
                    assert forall|k: int| 0 <= k < all.len() - 1 implies #[trigger] all[k].end
                        <= all[k + 1].start by {
                        if k > 0 {
                            assert(all[k] == rest[k - 1]);
                            assert(all[k + 1] == rest[k]);
                        }
                    }
                }
            },
            None => {
                lemma_tags_from_ordered(s, pos + 1, oc);
            },
        }
    }
}

fn digit_run_end_exec(s: &Vec<char>, i: usize) -> (r: usize)
    requires
        i <= s.len(),
    ensures
        r == digit_run_end(s@, i as int),
{
    let mut j = i;
    while j < s.len() && is_id_digit_exec(s[j])
        invariant
            i <= j <= s.len(),
            digit_run_end(s@, i as int) == digit_run_end(s@, j as int),
        decreases s.len() - j,
    {
        j = j + 1;
    }
    j
}

pub fn word_run_end_exec(s: &Vec<char>, i: usize) -> (r: usize)
    requires
        i <= s.len(),
    ensures
        r == word_run_end(s@, i as int),
{
    let mut j = i;
    while j < s.len() && is_word_char_exec(s[j])
        invariant
            i <= j <= s.len(),
            word_run_end(s@, i as int) == word_run_end(s@, j as int),
        decreases s.len() - j,
    {
        j = j + 1;
    }
    j
}

fn space_run_end_exec(s: &Vec<char>, i: usize) -> (r: usize)
    requires
        i <= s.len(),
    ensures
        r == space_run_end(s@, i as int),
{
    let mut j = i;
    while j < s.len() && is_space_exec(s[j])
        invariant
            i <= j <= s.len(),
            space_run_end(s@, i as int) == space_run_end(s@, j as int),
        decreases s.len() - j,
    {
        j = j + 1;
    }
    j
}

/// `</flag>` as a character vector.
pub fn close_chars() -> (v: Vec<char>)
    ensures
        v@ == close_pat(),
{
    let mut v: Vec<char> = Vec::new();
    v.push('<');
    v.push('/');
    v.push('f');
    v.push('l');
    v.push('a');
    v.push('g');
    v.push('>');
    assert(v@ =~= close_pat());
    v
}

/// `<flag:` as a character vector.
pub fn open_chars() -> (v: Vec<char>)
    ensures
        v@ == open_pat(),
{
    let mut v: Vec<char> = Vec::new();
    v.push('<');
    v.push('f');
    v.push('l');
    v.push('a');
    v.push('g');
    v.push(':');
    assert(v@ =~= open_pat());
    v
}

fn comment_chars() -> (v: Vec<char>)
    ensures
        v@ == comment_label(),
{
    let mut v: Vec<char> = Vec::new();
    v.push('C');
    v.push('o');
    v.push('m');
    v.push('m');
    v.push('e');
    v.push('n');
    v.push('t');
    assert(v@ =~= comment_label());
    v
}

fn close_after_exec(s: &Vec<char>, e: usize, close: &Vec<char>) -> (r: Option<usize>)
    requires
        close@ == close_pat(),
    ensures
        match r {
            Some(c) => close_after(s@, e as int) == Some(c as int),
            None => close_after(s@, e as int) is None,
        },
{
    let mut j = e;
    while j < s.len()
        invariant
            close@ == close_pat(),
            e <= j,
            close_after(s@, e as int) == close_after(s@, j as int),
        decreases s.len() - j,
    {
        if occurs_at_exec(s, j, close) {
            return Some(j);
        }
        if s[j] == '\n' {
            return None;
        }
        j = j + 1;
    }
    None
}

/// The tag that starts exactly at `i`, if any.
pub fn tag_at_exec(s: &Vec<char>, i: usize, only_comment: bool) -> (r: Option<Tag>)
    ensures
        match r {
            Some(t) => tag_at(s@, i as int, only_comment) == Some(t.span()),
            None => tag_at(s@, i as int, only_comment) is None,
        },
{
    proof {
        reveal(tag_at);
    }
    let open = open_chars();
    if !occurs_at_exec(s, i, &open) {
        return None;
    }
    assert(open@.len() == 6);
    assert(i + open@.len() <= s.len());
    let d0 = i + 6;
    let d1 = digit_run_end_exec(s, d0);
    proof {
        lemma_run_ends(s@, d0 as int);
    }
    if d1 == d0 || d1 >= s.len() || s[d1] != '>' {
        return None;
    }
    let l0 = d1 + 1;
    let l1 = word_run_end_exec(s, l0);
    proof {
        lemma_run_ends(s@, l0 as int);
    }
    if l1 == l0 || l1 >= s.len() || s[l1] != ':' {
        return None;
    }
    if only_comment {
        let label = copy_range(s, l0, l1);
        let comment = comment_chars();
        if label.len() != comment.len() || !occurs_at_exec(&label, 0, &comment) {
            proof {
                if label@ == comment_label() {
                    assert(label@.subrange(0, 7) =~= label@);
                }
            }
            return None;
        }
        assert(label@.subrange(0, 7) =~= label@);
    }
    let p = l1 + 1;
    let q = space_run_end_exec(s, p);
    proof {
        lemma_run_ends(s@, p as int);
    }
    let close = close_chars();
    if q < s.len() && s[q] != '\n' {
        let found = close_after_exec(s, q + 1, &close);
        proof {
            lemma_close_after(s@, q + 1);
        }
        match found {
            Some(e) => {
                return Some(
                    Tag {
                        start: i,
                        id_start: d0,
                        id_end: d1,
                        label_start: l0,
                        label_end: l1,
                        comment_start: q,
                        comment_end: e,
                        end: e + 7,
                    },
                );
            },
            None => {},
        }
    }
    if q > p && s[q - 1] != '\n' && occurs_at_exec(s, q, &close) {
        return Some(
            Tag {
                start: i,
                id_start: d0,
                id_end: d1,
                label_start: l0,
                label_end: l1,
                comment_start: q - 1,
                comment_end: q,
                end: q + 7,
            },
        );
    }
    None
}

/// All tags of `s`, left to right.
pub fn scan_tags(s: &Vec<char>, only_comment: bool) -> (r: Vec<Tag>)
    ensures
        spans(r@) == tags_of(s@, only_comment),
{
    let mut r: Vec<Tag> = Vec::new();
    let mut pos: usize = 0;
    while pos < s.len()
        invariant
            pos <= s.len(),
            spans(r@) + tags_from(s@, pos as int, only_comment) == tags_of(s@, only_comment),
        decreases s.len() - pos,
    {
        match tag_at_exec(s, pos, only_comment) {
            Some(t) => {
                proof {
                    lemma_tag_at_well_placed(s@, pos as int, only_comment);
                }
                let ghost before = spans(r@);
                r.push(t);
                assert(spans(r@) =~= before.push(t.span()));
                assert(tags_from(s@, pos as int, only_comment) == seq![t.span()] + tags_from(
                    s@,
                    t.end as int,
                    only_comment,
                ));
                assert(before.push(t.span()) + tags_from(s@, t.end as int, only_comment) =~= before
                    + (seq![t.span()] + tags_from(s@, t.end as int, only_comment)));
                pos = t.end;
            },
            None => {
                pos = pos + 1;
            },
        }
    }
    assert(spans(r@) + tags_from(s@, pos as int, only_comment) =~= spans(r@));
    r
}

/// One step of [`splice`]: the text up to the first tag, its replacement,
/// then the rest.
proof fn lemma_splice_step(
    s: Seq<char>,
    pos: int,
    tags: Seq<TagSpan>,
    reps: Seq<Seq<char>>,
    k: int,
)
    requires
        0 <= k < tags.len(),
        k < reps.len(),
    ensures
        splice(s, pos, tags.skip(k), reps.skip(k)) == s.subrange(pos, tags[k].start) + reps[k]
            + splice(s, tags[k].end, tags.skip(k + 1), reps.skip(k + 1)),
{
    let rest = tags.skip(k);
    let rest_reps = reps.skip(k);
    assert(rest[0] == tags[k]);
    assert(rest_reps[0] == reps[k]);
    assert(rest.drop_first() =~= tags.skip(k + 1));
    assert(rest_reps.drop_first() =~= reps.skip(k + 1));
}

proof fn lemma_concat3(a: Seq<char>, b: Seq<char>, c: Seq<char>, d: Seq<char>)
    ensures
        a + b + c + d == a + (b + c + d),
{
    assert(a + b + c + d =~= a + (b + c + d));
}

/// Splices replacement texts over tags (executable form of [`splice`]).
#[verifier::rlimit(50)]
pub fn splice_exec(s: &Vec<char>, tags: &Vec<Tag>, reps: &Vec<Vec<char>>) -> (r: Vec<char>)
    requires
        ordered_from(s@, 0, spans(tags@)),
        reps.len() == tags.len(),
    ensures
        r@ == splice(s@, 0, spans(tags@), seq_views(reps@)),
{
    let mut out: Vec<char> = Vec::new();
    let mut pos: usize = 0;
    let mut k: usize = 0;
    let ghost all = spans(tags@);
    let ghost all_reps = seq_views(reps@);
    assert(all.skip(0) =~= all);
    assert(all_reps.skip(0) =~= all_reps);
    while k < tags.len()
        invariant
            all == spans(tags@),
            all_reps == seq_views(reps@),
            reps.len() == tags.len(),
            ordered_from(s@, 0, all),
            k <= tags.len(),
            pos <= s.len(),
            k < tags.len() ==> pos <= all[k as int].start,
            out@ + splice(s@, pos as int, all.skip(k as int), all_reps.skip(k as int)) == splice(
                s@,
                0,
                all,
                all_reps,
            ),
        decreases tags.len() - k,
    {
        let t = tags[k];
        proof {
            assert(all[k as int] == t.span());
            assert(well_placed(s@, all[k as int]));
            if k + 1 < tags.len() {
                assert(all[k as int].end <= all[k + 1].start);
            }
            assert(all_reps[k as int] == reps[k as int]@);
            lemma_splice_step(s@, pos as int, all, all_reps, k as int);
        }
        let gap = copy_range(s, pos, t.start);
        let ghost before = out@;
        push_all(&mut out, &gap);
        push_all(&mut out, &reps[k]);
        proof {
            lemma_concat3(
                before,
                gap@,
                reps[k as int]@,
                splice(s@, t.end as int, all.skip(k + 1), all_reps.skip(k + 1)),
            );
        }
        pos = t.end;
        k = k + 1;
    }
    let tail = copy_range(s, pos, s.len());
    push_all(&mut out, &tail);
    assert(all.skip(k as int) =~= Seq::<TagSpan>::empty());
    out
}

/// The digit run from `i` ends at `k` when `s[i..k]` are digits and `s[k]`
/// is not.
pub proof fn lemma_digit_run_exact(s: Seq<char>, i: int, k: int)
    requires
        0 <= i <= k < s.len(),
        forall|j: int| i <= j < k ==> is_id_digit(#[trigger] s[j]),
        !is_id_digit(s[k]),
    ensures
        digit_run_end(s, i) == k,
    decreases k - i,
{
    if i < k {
        lemma_digit_run_exact(s, i + 1, k);
    }
}

/// The word run from `i` ends at `k` when `s[i..k]` are word characters and
/// `s[k]` is not.
pub proof fn lemma_word_run_exact(s: Seq<char>, i: int, k: int)
    requires
        0 <= i <= k < s.len(),
        forall|j: int| i <= j < k ==> is_word_char(#[trigger] s[j]),
        !is_word_char(s[k]),
    ensures
        word_run_end(s, i) == k,
    decreases k - i,
{
    if i < k {
        lemma_word_run_exact(s, i + 1, k);
    }
}

/// The whitespace run from `i` ends at `k` when `s[i..k]` are whitespace
/// and `s[k]` is not.
pub proof fn lemma_space_run_exact(s: Seq<char>, i: int, k: int)
    requires
        0 <= i <= k < s.len(),
        forall|j: int| i <= j < k ==> is_space(#[trigger] s[j]),
        !is_space(s[k]),
    ensures
        space_run_end(s, i) == k,
    decreases k - i,
{
    if i < k {
        lemma_space_run_exact(s, i + 1, k);
    }
}

/// The close search from `i` stops at the first `</flag>`, at `c`, when no
/// line feed and no `<` comes before it.
pub proof fn lemma_close_exact(s: Seq<char>, i: int, c: int)
    requires
        0 <= i <= c,
        occurs_at(s, c, close_pat()),
        forall|j: int| i <= j < c ==> s[j] != '\n' && s[j] != '<',
    ensures
        close_after(s, i) == Some(c),
    decreases c - i,
{
    if i < c {
        assert(close_pat()[0] == '<');
        if occurs_at(s, i, close_pat()) {
            assert(s.subrange(i, i + 7)[0] == s[i]);
        }
        lemma_close_exact(s, i + 1, c);
    }
}

/// Scanning skips positions where no tag starts.
pub proof fn lemma_tags_skip(s: Seq<char>, pos: int, to: int, oc: bool)
    requires
        0 <= pos <= to <= s.len(),
        forall|j: int| pos <= j < to ==> tag_at(s, j, oc) is None,
    ensures
        tags_from(s, pos, oc) == tags_from(s, to, oc),
    decreases to - pos,
{
    if pos < to {
        lemma_tags_skip(s, pos + 1, to, oc);
    }
}

/// No tag starts where `<` is not.
pub proof fn lemma_no_tag_without_angle(s: Seq<char>, j: int, oc: bool)
    requires
        0 <= j < s.len(),
        s[j] != '<',
    ensures
        tag_at(s, j, oc) is None,
{
    reveal(tag_at);
    if occurs_at(s, j, open_pat()) {
        assert(s.subrange(j, j + 6)[0] == s[j]);
    }
}

/// A tag span moved `d` positions to the right.
pub open spec fn shift_span(t: TagSpan, d: int) -> TagSpan {
    TagSpan {
        start: t.start + d,
        id_start: t.id_start + d,
        id_end: t.id_end + d,
        label_start: t.label_start + d,
        label_end: t.label_end + d,
        comment_start: t.comment_start + d,
        comment_end: t.comment_end + d,
        end: t.end + d,
    }
}

/// Tag spans moved `d` positions to the right.
pub open spec fn shift_spans(ts: Seq<TagSpan>, d: int) -> Seq<TagSpan> {
    ts.map_values(|t: TagSpan| shift_span(t, d))
}

/// An optional position moved `d` positions to the right.
pub open spec fn shift_pos(o: Option<int>, d: int) -> Option<int> {
    match o {
        Some(e) => Some(e + d),
        None => None,
    }
}

pub proof fn lemma_subrange_shift(p: Seq<char>, r: Seq<char>, a: int, b: int)
    requires
        0 <= a <= b <= r.len(),
    ensures
        (p + r).subrange(p.len() + a, p.len() + b) == r.subrange(a, b),
{
    assert((p + r).subrange(p.len() + a, p.len() + b) =~= r.subrange(a, b));
}

pub proof fn lemma_occurs_shift(p: Seq<char>, r: Seq<char>, j: int, pat: Seq<char>)
    requires
        0 <= j,
    ensures
        occurs_at(p + r, p.len() + j, pat) == occurs_at(r, j, pat),
{
    if j + pat.len() <= r.len() {
        lemma_subrange_shift(p, r, j, j + pat.len());
    }
}

pub proof fn lemma_runs_shift(p: Seq<char>, r: Seq<char>, j: int)
    requires
        0 <= j,
    ensures
        digit_run_end(p + r, p.len() + j) == p.len() + digit_run_end(r, j),
        word_run_end(p + r, p.len() + j) == p.len() + word_run_end(r, j),
        space_run_end(p + r, p.len() + j) == p.len() + space_run_end(r, j),
    decreases r.len() - j,
{
    if j < r.len() {
        assert((p + r)[p.len() + j] == r[j]);
        lemma_runs_shift(p, r, j + 1);
    }
}

pub proof fn lemma_close_shift(p: Seq<char>, r: Seq<char>, j: int)
    requires
        0 <= j,
    ensures
        close_after(p + r, p.len() + j) == shift_pos(close_after(r, j), p.len() as int),
    decreases r.len() - j,
{
    lemma_occurs_shift(p, r, j, close_pat());
    if j < r.len() {
        assert((p + r)[p.len() + j] == r[j]);
        lemma_close_shift(p, r, j + 1);
    }
}

/// Text in front does not change which tag starts at a position: it only
/// moves it.
pub proof fn lemma_tag_at_shift(p: Seq<char>, r: Seq<char>, j: int, oc: bool)
    requires
        0 <= j,
    ensures
        tag_at(p + r, p.len() + j, oc) == match tag_at(r, j, oc) {
            Some(t) => Some(shift_span(t, p.len() as int)),
            None => None,
        },
{
    reveal(tag_at);
    let s = p + r;
    let d = p.len() as int;
    lemma_occurs_shift(p, r, j, open_pat());
    if occurs_at(r, j, open_pat()) {
        let d0 = j + 6;
        lemma_runs_shift(p, r, d0);
        lemma_run_ends(r, d0);
        let d1 = digit_run_end(r, d0);
        if d1 < r.len() {
            assert(s[d + d1] == r[d1]);
            let l0 = d1 + 1;
            lemma_runs_shift(p, r, l0);
            lemma_run_ends(r, l0);
            let l1 = word_run_end(r, l0);
            if l1 < r.len() {
                assert(s[d + l1] == r[l1]);
                lemma_subrange_shift(p, r, l0, l1);
                let pp = l1 + 1;
                lemma_runs_shift(p, r, pp);
                lemma_run_ends(r, pp);
                let q = space_run_end(r, pp);
                lemma_close_shift(p, r, q + 1);
                lemma_occurs_shift(p, r, q, close_pat());
                if q < r.len() {
                    assert(s[d + q] == r[q]);
                }
                if q > pp {
                    assert(s[d + q - 1] == r[q - 1]);
                }
            }
        }
    }
}

/// Text in front does not change the tags found from a position: it only
/// moves them.
pub proof fn lemma_tags_from_shift(p: Seq<char>, r: Seq<char>, j: int, oc: bool)
    requires
        0 <= j,
    ensures
        tags_from(p + r, p.len() + j, oc) == shift_spans(tags_from(r, j, oc), p.len() as int),
    decreases r.len() - j,
{
    let d = p.len() as int;
    if j < r.len() {
        lemma_tag_at_shift(p, r, j, oc);
        match tag_at(r, j, oc) {
            Some(t) => {
                if j < t.end <= r.len() {
                    lemma_tags_from_shift(p, r, t.end, oc);
                    let rest = tags_from(r, t.end, oc);
                    assert(shift_spans(seq![t] + rest, d) =~= seq![shift_span(t, d)]
                        + shift_spans(rest, d));
                } else {
                    assert(shift_spans(Seq::<TagSpan>::empty(), d) =~= Seq::<TagSpan>::empty());
                }
            },
            None => {
                lemma_tags_from_shift(p, r, j + 1, oc);
            },
        }
    } else {
        assert(shift_spans(Seq::<TagSpan>::empty(), d) =~= Seq::<TagSpan>::empty());
    }
}

/// `s1` and `s2` hold the same characters below `n`.
pub open spec fn agree_below(s1: Seq<char>, s2: Seq<char>, n: int) -> bool {
    &&& 0 <= n <= s1.len()
    &&& n <= s2.len()
    &&& forall|k: int| 0 <= k < n ==> s1[k] == s2[k]
}

/// The tag was found with a `</flag>` after its first comment character,
/// not by giving back the whitespace before an immediate `</flag>`.
pub open spec fn found_by_close(s: Seq<char>, t: TagSpan) -> bool {
    let q = space_run_end(s, t.label_end + 1);
    q < s.len() && s[q] != '\n' && close_after(s, q + 1) is Some
}

proof fn lemma_run_ge(s: Seq<char>, j: int)
    ensures
        digit_run_end(s, j) >= j,
        word_run_end(s, j) >= j,
        space_run_end(s, j) >= j,
    decreases s.len() - j,
{
    if 0 <= j < s.len() {
        lemma_run_ge(s, j + 1);
    }
}

proof fn lemma_runs_agree(s1: Seq<char>, s2: Seq<char>, n: int, j: int)
    requires
        agree_below(s1, s2, n),
        0 <= j,
    ensures
        digit_run_end(s1, j) < n ==> digit_run_end(s2, j) == digit_run_end(s1, j),
        word_run_end(s1, j) < n ==> word_run_end(s2, j) == word_run_end(s1, j),
        space_run_end(s1, j) < n ==> space_run_end(s2, j) == space_run_end(s1, j),
    decreases s1.len() - j,
{
    lemma_run_ge(s1, j);
    if j < n {
        assert(s1[j] == s2[j]);
        lemma_runs_agree(s1, s2, n, j + 1);
    }
}

proof fn lemma_occurs_agree(s1: Seq<char>, s2: Seq<char>, n: int, i: int, pat: Seq<char>)
    requires
        agree_below(s1, s2, n),
        0 <= i,
        i + pat.len() <= n,
    ensures
        occurs_at(s1, i, pat) == occurs_at(s2, i, pat),
{
    assert(s1.subrange(i, i + pat.len()) =~= s2.subrange(i, i + pat.len()));
}

proof fn lemma_close_agree(s1: Seq<char>, s2: Seq<char>, n: int, j: int)
    requires
        agree_below(s1, s2, n),
        0 <= j,
        close_after(s1, j) matches Some(e) && e + 7 <= n,
    ensures
        close_after(s2, j) == close_after(s1, j),
    decreases s1.len() - j,
{
    lemma_close_after(s1, j);
    let e = close_after(s1, j)->0;
    lemma_occurs_agree(s1, s2, n, j, close_pat());
    if j < e {
        assert(s1[j] == s2[j]);
        lemma_close_agree(s1, s2, n, j + 1);
    }
}

/// Where a tag was found by its `</flag>`, what follows the tag does not
/// matter: text that agrees up to the tag's end has the same tag there.
pub proof fn lemma_tag_at_window(s1: Seq<char>, s2: Seq<char>, n: int, i: int, oc: bool)
    requires
        agree_below(s1, s2, n),
        0 <= i,
        tag_at(s1, i, oc) matches Some(t) && t.end <= n && found_by_close(s1, t),
    ensures
        tag_at(s2, i, oc) == tag_at(s1, i, oc),
{
    reveal(tag_at);
    let t = tag_at(s1, i, oc)->0;
    lemma_tag_at_well_placed(s1, i, oc);
    lemma_occurs_agree(s1, s2, n, i, open_pat());
    let d0 = i + 6;
    lemma_runs_agree(s1, s2, n, d0);
    let d1 = digit_run_end(s1, d0);
    assert(d1 == t.id_end);
    assert(s1[d1] == s2[d1]);
    let l0 = d1 + 1;
    lemma_runs_agree(s1, s2, n, l0);
    let l1 = word_run_end(s1, l0);
    assert(l1 == t.label_end);
    assert(s1[l1] == s2[l1]);
    assert(s1.subrange(l0, l1) =~= s2.subrange(l0, l1));
    let p = l1 + 1;
    lemma_runs_agree(s1, s2, n, p);
    let q = space_run_end(s1, p);
    assert(q == t.comment_start);
    assert(s1[q] == s2[q]);
    lemma_close_after(s1, q + 1);
    lemma_close_agree(s1, s2, n, q + 1);
}

/// Where the whitespace run after a tag's label ends, relative to its
/// comment.
pub proof fn lemma_tag_at_space(s: Seq<char>, i: int, oc: bool)
    requires
        0 <= i,
        tag_at(s, i, oc) is Some,
    ensures
        ({
            let t = tag_at(s, i, oc)->0;
            let q = space_run_end(s, t.label_end + 1);
            &&& t.comment_start <= q <= t.comment_end
            &&& found_by_close(s, t) ==> t.comment_start == q
        }),
{
    reveal(tag_at);
    let d1 = digit_run_end(s, i + 6);
    let l1 = word_run_end(s, d1 + 1);
    let q = space_run_end(s, l1 + 1);
    lemma_close_after(s, q + 1);
}

/// A `</flag>` at `k` after `j`, with no line feed between, is found from
/// `j`.
pub proof fn lemma_close_found(s: Seq<char>, j: int, k: int)
    requires
        0 <= j <= k,
        occurs_at(s, k, close_pat()),
        forall|m: int| j <= m < k ==> s[m] != '\n',
    ensures
        close_after(s, j) is Some,
    decreases k - j,
{
    if j < k && !occurs_at(s, j, close_pat()) {
        lemma_close_found(s, j + 1, k);
    }
}

/// The id, label and comment texts of a tag.
pub open spec fn tag_parts(s: Seq<char>, t: TagSpan) -> (Seq<char>, Seq<char>, Seq<char>) {
    (tag_id_text(s, t), tag_label(s, t), tag_comment(s, t))
}

/// The id, label and comment texts of tags.
pub open spec fn tags_parts(s: Seq<char>, ts: Seq<TagSpan>) -> Seq<
    (Seq<char>, Seq<char>, Seq<char>),
> {
    ts.map_values(|t: TagSpan| tag_parts(s, t))
}

/// The tags after the first lie in order after it.
pub proof fn lemma_ordered_rest(s: Seq<char>, pos: int, tags: Seq<TagSpan>)
    requires
        ordered_from(s, pos, tags),
        tags.len() > 0,
    ensures
        ordered_from(s, tags[0].end, tags.drop_first()),
        well_placed(s, tags[0]),
        pos <= tags[0].start,
{
    let rest = tags.drop_first();
    assert(well_placed(s, tags[0]));
    assert forall|k: int| 0 <= k < rest.len() implies well_placed(s, #[trigger] rest[k]) by {
        assert(rest[k] == tags[k + 1]);
    }
    if rest.len() > 0 {
        assert(tags[0].end <= tags[1].start);
    }
    assert forall|k: int| 0 <= k < rest.len() - 1 implies #[trigger] rest[k].end <= rest[k
        + 1].start by {
        assert(rest[k] == tags[k + 1]);
        assert(rest[k + 1] == tags[k + 2]);
        assert(tags[k + 1].end <= tags[k + 2].start);
    }
}

/// Text in front does not change the parts of tags that are moved with it.
pub proof fn lemma_parts_shift(p: Seq<char>, r: Seq<char>, ts: Seq<TagSpan>)
    requires
        forall|k: int| 0 <= k < ts.len() ==> well_placed(r, #[trigger] ts[k]),
    ensures
        tags_parts(p + r, shift_spans(ts, p.len() as int)) == tags_parts(r, ts),
{
    let d = p.len() as int;
    assert forall|k: int| 0 <= k < ts.len() implies #[trigger] tags_parts(
        p + r,
        shift_spans(ts, d),
    )[k] == tags_parts(r, ts)[k] by {
        let t = ts[k];
        assert(well_placed(r, t));
        lemma_subrange_shift(p, r, t.id_start, t.id_end);
        lemma_subrange_shift(p, r, t.label_start, t.label_end);
        lemma_subrange_shift(p, r, t.comment_start, t.comment_end);
    }
    assert(tags_parts(p + r, shift_spans(ts, d)) =~= tags_parts(r, ts));
}

/// Text in front does not change a splice over tags moved with it.
pub proof fn lemma_splice_shift(
    p: Seq<char>,
    r: Seq<char>,
    j: int,
    ts: Seq<TagSpan>,
    reps: Seq<Seq<char>>,
)
    requires
        ordered_from(r, j, ts),
        reps.len() == ts.len(),
    ensures
        splice(p + r, p.len() + j, shift_spans(ts, p.len() as int), reps) == splice(r, j, ts, reps),
    decreases ts.len(),
{
    let d = p.len() as int;
    if ts.len() == 0 {
        lemma_subrange_shift(p, r, j, r.len() as int);
        assert((p + r).len() == d + r.len());
    } else {
        let t = ts[0];
        let rest = ts.drop_first();
        lemma_ordered_rest(r, j, ts);
        assert(shift_spans(ts, d)[0] == shift_span(t, d));
        assert(shift_spans(ts, d).drop_first() =~= shift_spans(rest, d));
        lemma_splice_shift(p, r, t.end, rest, reps.drop_first());
        lemma_subrange_shift(p, r, j, t.start);
    }
}

/// A splice over tags moved behind a prefix keeps the prefix in front.
pub proof fn lemma_splice_prefix(p: Seq<char>, r: Seq<char>, ts: Seq<TagSpan>, reps: Seq<Seq<char>>)
    requires
        ordered_from(r, 0, ts),
        reps.len() == ts.len(),
    ensures
        splice(p + r, 0, shift_spans(ts, p.len() as int), reps) == p + splice(r, 0, ts, reps),
{
    let d = p.len() as int;
    if ts.len() == 0 {
        assert((p + r).subrange(0, (p + r).len() as int) =~= p + r.subrange(0, r.len() as int));
    } else {
        let t = ts[0];
        let rest = ts.drop_first();
        lemma_ordered_rest(r, 0, ts);
        assert(shift_spans(ts, d)[0] == shift_span(t, d));
        assert(shift_spans(ts, d).drop_first() =~= shift_spans(rest, d));
        lemma_splice_shift(p, r, t.end, rest, reps.drop_first());
        assert((p + r).subrange(0, d + t.start) =~= p + r.subrange(0, t.start));
        let tail = splice(r, t.end, rest, reps.drop_first());
        assert((p + r.subrange(0, t.start)) + reps[0] + tail =~= p + (r.subrange(0, t.start)
            + reps[0] + tail));
    }
}

/// No tag starts where `<flag:` does not occur.
pub proof fn lemma_no_tag_without_open(s: Seq<char>, i: int, oc: bool)
    requires
        !occurs_at(s, i, open_pat()),
    ensures
        tag_at(s, i, oc) is None,
{
    reveal(tag_at);
}

} // verus!
