//! Markdown for the terminal: flag tags become bold inline markers, and the
//! text is laid out by termimad.
use vstd::prelude::*;
use crate::tags::{
    lemma_no_tag_without_open, lemma_tag_at_well_placed, open_pat, tag_at, tag_at_exec, tag_comment,
    tag_id_text, Tag,
};
use crate::text::{
    chars_to_string, contains_seq, copy_range, lines_of, occurs_at, push_all, push_str,
    starts_with, str_to_chars,
};

verus! {

/// The terminal marker of a flag: `**[FLAG #ID:** COMMENT**]**`.
pub open spec fn flag_marker(id: Seq<char>, comment: Seq<char>) -> Seq<char> {
    "**[FLAG #"@ + id + ":** "@ + comment + "**]**"@
}

/// `s[pos..]` with every `Comment` flag tag replaced by its marker.
pub open spec fn markers_from(s: Seq<char>, pos: int) -> Seq<char>
    decreases s.len() - pos,
{
    if pos < 0 || pos >= s.len() {
        seq![]
    } else {
        match tag_at(s, pos, true) {
            Some(t) => if pos < t.end <= s.len() {
                flag_marker(tag_id_text(s, t), tag_comment(s, t)) + markers_from(s, t.end)
            } else {
                seq![s[pos]] + markers_from(s, pos + 1)
            },
            None => seq![s[pos]] + markers_from(s, pos + 1),
        }
    }
}

proof fn lemma_append3(a: Seq<char>, b: Seq<char>, c: Seq<char>)
    ensures
        a + b + c == a + (b + c),
{
    assert(a + b + c =~= a + (b + c));
}

fn marker_exec(s: &Vec<char>, t: Tag) -> (r: Vec<char>)
    requires
        t.id_start <= t.id_end <= s.len(),
        t.comment_start <= t.comment_end <= s.len(),
    ensures
        r@ == flag_marker(tag_id_text(s@, t.span()), tag_comment(s@, t.span())),
{
    let id = copy_range(s, t.id_start, t.id_end);
    let comment = copy_range(s, t.comment_start, t.comment_end);
    let mut out: Vec<char> = Vec::new();
    push_str(&mut out, "**[FLAG #");
    push_all(&mut out, &id);
    push_str(&mut out, ":** ");
    push_all(&mut out, &comment);
    push_str(&mut out, "**]**");
    out
}

/// Replaces every `<flag:ID>Comment: TEXT</flag>` by a bold
/// `**[FLAG #ID:** TEXT**]**` marker; other text is kept.
pub fn prepare_flags_for_terminal(content: &str) -> (r: String)
    ensures
        r@ == markers_from(content@, 0),
{
    let s = str_to_chars(content);
    let mut out: Vec<char> = Vec::new();
    let mut pos: usize = 0;
    while pos < s.len()
        invariant
            s@ == content@,
            pos <= s.len(),
            out@ + markers_from(s@, pos as int) == markers_from(s@, 0),
        decreases s.len() - pos,
    {
        let ghost before = out@;
        let found = tag_at_exec(&s, pos, true);
        let mut next = pos + 1;
        match found {
            Some(t) => {
                if pos < t.end && t.end <= s.len() {
                    proof {
                        lemma_tag_at_well_placed(s@, pos as int, true);
                    }
                    let rep = marker_exec(&s, t);
                    push_all(&mut out, &rep);
                    proof {
                        lemma_append3(before, rep@, markers_from(s@, t.end as int));
                    }
                    next = t.end;
                } else {
                    out.push(s[pos]);
                    proof {
                        lemma_append3(before, seq![s@[pos as int]], markers_from(s@, pos + 1));
                    }
                }
            },
            None => {
                out.push(s[pos]);
                proof {
                    lemma_append3(before, seq![s@[pos as int]], markers_from(s@, pos + 1));
                }
            },
        }
        pos = next;
    }
    assert(out@ + markers_from(s@, pos as int) =~= out@);
    chars_to_string(&out)
}

/// The lines of the markdown that the layout keeps: those that do not
/// start with a code fence delimiter `` ``` ``.
pub open spec fn kept_lines(md: Seq<char>) -> Seq<Seq<char>> {
    lines_of(md).filter(|l: Seq<char>| !starts_with(l, "```"@))
}

/// How many line feeds a text holds.
pub open spec fn line_feeds(s: Seq<char>) -> nat {
    s.filter(|c: char| c == '\n').len()
}

/// Lays markdown out for the terminal with termimad's default skin
/// (`MadSkin::default().text(..)`, displayed). The styling depends on the
/// environment (crossterm honours `NO_COLOR`), so the text itself is not
/// claimed. What holds of every outcome: minimad keeps every line that
/// does not start with a code fence delimiter, the layout drops none of
/// them (no width is given, so nothing is wrapped), and the display writes
/// each laid-out line followed by a line feed. So the result is empty or
/// ends with a line feed, and holds at least one line feed per kept line.
#[verifier::external_body]
fn termimad_text(markdown: &str) -> (r: String)
    ensures
        r@.len() == 0 || r@.last() == '\n',
        line_feeds(r@) >= kept_lines(markdown@).len(),
{
    let skin = termimad::MadSkin::default();
    skin.text(markdown, None).to_string()
}

/// Renders markdown for terminal display: flags become bold markers, then
/// termimad lays the text out. The styling depends on the environment;
/// the result ends with a line feed (or is empty) and holds a line for each
/// line of the marked text that is not a code fence delimiter.
pub fn render_terminal(content: &str) -> (r: String)
    ensures
        r@.len() == 0 || r@.last() == '\n',
        line_feeds(r@) >= kept_lines(markers_from(content@, 0)).len(),
{
    let prepared = prepare_flags_for_terminal(content);
    termimad_text(prepared.as_str())
}

proof fn lemma_markers_keep_plain(s: Seq<char>, pos: int)
    requires
        0 <= pos <= s.len(),
        forall|i: int| 0 <= i < s.len() ==> !occurs_at(s, i, open_pat()),
    ensures
        markers_from(s, pos) == s.subrange(pos, s.len() as int),
    decreases s.len() - pos,
{
    if pos < s.len() {
        lemma_no_tag_without_open(s, pos, true);
        lemma_markers_keep_plain(s, pos + 1);
        assert(seq![s[pos]] + s.subrange(pos + 1, s.len() as int) =~= s.subrange(
            pos,
            s.len() as int,
        ));
    } else {
        assert(s.subrange(pos, s.len() as int) =~= Seq::<char>::empty());
    }
}

/// Text without flag tags is handed to the terminal as it is.
pub proof fn law_plain_text_unmarked(content: Seq<char>)
    requires
        !contains_seq(content, open_pat()),
    ensures
        markers_from(content, 0) == content,
{
    assert forall|i: int| 0 <= i < content.len() implies !occurs_at(content, i, open_pat()) by {
        if occurs_at(content, i, open_pat()) {
            assert(contains_seq(content, open_pat()));
        }
    }
    lemma_markers_keep_plain(content, 0);
    assert(content.subrange(0, content.len() as int) =~= content);
}

} // verus!
