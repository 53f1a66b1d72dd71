//! Finishing the HTML that the markdown renderer produced: fenced code
//! blocks are highlighted, diff blocks are laid out line by line, and flag
//! tags become marked-up spans.
//!
//! A code block is found the way the pattern
//! `<pre><code class="language-(\w+)">([\s\S]*?)</code></pre>` matches with
//! leftmost-first semantics: the language is a run of word characters and
//! the code runs lazily up to the first following `</code></pre>`. Blocks
//! are found left to right without overlap; text outside them is kept.
use vstd::prelude::*;
use crate::html::{escape_chars, escaped, unescape_chars, unescaped};
use crate::tags::{
    lemma_run_ends,
    lemma_no_tag_without_open,
    lemma_tag_at_well_placed,
    open_pat,
    tag_at,
    tag_at_exec,
    tag_comment,
    tag_id_text,
    word_run_end,
    word_run_end_exec,
    TagSpan,
};
use crate::text::{
    chars_equal,
    chars_to_string,
    contains_seq,
    copy_range,
    lines_of,
    occurs_at,
    occurs_at_exec,
    push_all,
    push_str,
    split_lines,
    starts_with,
    str_to_chars,
    trim_exec,
    trimmed,
};

verus! {

/// `<pre><code class="language-`
pub open spec fn block_open() -> Seq<char> {
    "<pre><code class=\"language-"@
}

/// `">`, which ends the language name.
pub open spec fn lang_mark() -> Seq<char> {
    "\">"@
}

/// `</code></pre>`
pub open spec fn block_close() -> Seq<char> {
    "</code></pre>"@
}

/// The language name of diff blocks.
pub open spec fn diff_lang() -> Seq<char> {
    "diff"@
}

/// The syntax-highlighting theme.
pub open spec fn highlight_theme() -> Seq<char> {
    "base16-ocean.dark"@
}

/// The first index `j' >= j` where `pat` occurs in `s`.
pub open spec fn find_from(s: Seq<char>, pat: Seq<char>, j: int) -> Option<int>
    decreases s.len() - j,
{
    if j < 0 || j > s.len() {
        None
    } else if occurs_at(s, j, pat) {
        Some(j)
    } else if j == s.len() {
        None
    } else {
        find_from(s, pat, j + 1)
    }
}

/// Where the parts of one code block lie: the block spans `start..end`,
/// its language name `lang_start..lang_end` and its (escaped) code
/// `code_start..code_end`.
pub struct BlockSpan {
    pub start: int,
    pub lang_start: int,
    pub lang_end: int,
    pub code_start: int,
    pub code_end: int,
    pub end: int,
}

/// The executable form of [`BlockSpan`].
#[derive(Clone, Copy)]
pub struct Block {
    pub start: usize,
    pub lang_start: usize,
    pub lang_end: usize,
    pub code_start: usize,
    pub code_end: usize,
    pub end: usize,
}

impl Block {
    pub open spec fn span(self) -> BlockSpan {
        BlockSpan {
            start: self.start as int,
            lang_start: self.lang_start as int,
            lang_end: self.lang_end as int,
            code_start: self.code_start as int,
            code_end: self.code_end as int,
            end: self.end as int,
        }
    }
}

/// The code block that starts exactly at `i`, if any; with `only_diff`,
/// only a block whose language is `diff`.
pub open spec fn code_block_at(s: Seq<char>, i: int, only_diff: bool) -> Option<BlockSpan> {
    if !occurs_at(s, i, block_open()) {
        None
    } else {
        let l0 = i + block_open().len();
        let l1 = word_run_end(s, l0);
        if l1 == l0 || !occurs_at(s, l1, lang_mark()) || (only_diff && s.subrange(l0, l1)
            != diff_lang()) {
            None
        } else {
            let c0 = l1 + lang_mark().len();
            match find_from(s, block_close(), c0) {
                Some(e) => Some(
                    BlockSpan {
                        start: i,
                        lang_start: l0,
                        lang_end: l1,
                        code_start: c0,
                        code_end: e,
                        end: e + block_close().len(),
                    },
                ),
                None => None,
            }
        }
    }
}

/// The language name of a block.
pub open spec fn block_lang(s: Seq<char>, b: BlockSpan) -> Seq<char> {
    s.subrange(b.lang_start, b.lang_end)
}

/// The code of a block, read back from its HTML escaping.
pub open spec fn block_code(s: Seq<char>, b: BlockSpan) -> Seq<char> {
    unescaped(s.subrange(b.code_start, b.code_end))
}

/// The whole text of a block.
pub open spec fn block_text(s: Seq<char>, b: BlockSpan) -> Seq<char> {
    s.subrange(b.start, b.end)
}

/// What syntect renders for `code` (`highlighted_html_for_string`) with the
/// syntax that `find_syntax_by_token(token)` finds in the default syntax
/// set and the default theme named `theme`; `None` when there is no such
/// syntax or theme, or highlighting fails.
pub uninterp spec fn syntect_html(code: Seq<char>, token: Seq<char>, theme: Seq<char>) -> Option<
    Seq<char>,
>;

/// Highlights code with syntect's default syntaxes and themes. Its result
/// is a function of the three texts alone, named `syntect_html`; nothing
/// more is claimed of it.
#[verifier::external_body]
fn highlight_code(code: &str, token: &str, theme: &str) -> (r: Option<String>)
    ensures
        match r {
            Some(h) => syntect_html(code@, token@, theme@) == Some(h@),
            None => syntect_html(code@, token@, theme@) is None,
        },
{
    let syntaxes = syntect::parsing::SyntaxSet::load_defaults_newlines();
    let themes = syntect::highlighting::ThemeSet::load_defaults();
    let chosen = themes.themes.get(theme)?;
    let syntax = syntaxes.find_syntax_by_token(token)?;
    syntect::html::highlighted_html_for_string(code, &syntaxes, syntax, chosen).ok()
}

/// What a code block becomes: a `diff` block stays as it is (it is laid
/// out later); otherwise the highlighted code, or the block unchanged when
/// it cannot be highlighted.
pub open spec fn highlighted_block(s: Seq<char>, b: BlockSpan) -> Seq<char> {
    if block_lang(s, b) == diff_lang() {
        block_text(s, b)
    } else {
        match syntect_html(block_code(s, b), block_lang(s, b), highlight_theme()) {
            Some(h) => h,
            None => block_text(s, b),
        }
    }
}

/// `s[pos..]` with every code block replaced by its highlighted form.
pub open spec fn highlight_from(s: Seq<char>, pos: int) -> Seq<char>
    decreases s.len() - pos,
{
    if pos < 0 || pos >= s.len() {
        seq![]
    } else {
        match code_block_at(s, pos, false) {
            Some(b) => if pos < b.end <= s.len() {
                highlighted_block(s, b) + highlight_from(s, b.end)
            } else {
                seq![s[pos]] + highlight_from(s, pos + 1)
            },
            None => seq![s[pos]] + highlight_from(s, pos + 1),
        }
    }
}

/// The class of a diff line: added, removed, hunk header or context.
pub open spec fn diff_class(line: Seq<char>) -> Seq<char> {
    if line.len() > 0 && line[0] == '+' {
        "diff-added"@
    } else if line.len() > 0 && line[0] == '-' {
        "diff-removed"@
    } else if starts_with(line, "@@"@) {
        "diff-hunk"@
    } else {
        "diff-context"@
    }
}

/// One diff line as a classed, escaped span ending in a line feed.
pub open spec fn diff_line_html(line: Seq<char>) -> Seq<char> {
    "<span class=\""@ + diff_class(line) + "\">"@ + escaped(line) + "</span>\n"@
}

/// The spans of all lines, in order.
pub open spec fn diff_lines_html(ls: Seq<Seq<char>>) -> Seq<char>
    decreases ls.len(),
{
    if ls.len() == 0 {
        seq![]
    } else {
        diff_lines_html(ls.drop_last()) + diff_line_html(ls.last())
    }
}

/// The laid-out form of a diff block whose code is `raw`.
pub open spec fn diff_block_html(raw: Seq<char>) -> Seq<char> {
    "<pre class=\"diff-block\"><code>"@ + diff_lines_html(lines_of(raw))
        + "</code></pre>"@
}

/// `s[pos..]` with every diff block laid out line by line.
pub open spec fn diff_from(s: Seq<char>, pos: int) -> Seq<char>
    decreases s.len() - pos,
{
    if pos < 0 || pos >= s.len() {
        seq![]
    } else {
        match code_block_at(s, pos, true) {
            Some(b) => if pos < b.end <= s.len() {
                diff_block_html(block_code(s, b)) + diff_from(s, b.end)
            } else {
                seq![s[pos]] + diff_from(s, pos + 1)
            },
            None => seq![s[pos]] + diff_from(s, pos + 1),
        }
    }
}

/// The marked-up form of a flag with the given id and comment: the
/// comment is trimmed and escaped.
pub open spec fn flag_span_html(id: Seq<char>, comment: Seq<char>) -> Seq<char> {
    "<span class=\"flag\" data-flag-id=\""@ + id + "\"><span class=\"flag-marker\">#"@ + id
        + "</span><span class=\"flag-comment\">"@ + escaped(trimmed(comment))
        + "</span></span>"@
}

/// `s[pos..]` with every flag tag replaced by its marked-up span.
pub open spec fn flags_html_from(s: Seq<char>, pos: int) -> Seq<char>
    decreases s.len() - pos,
{
    if pos < 0 || pos >= s.len() {
        seq![]
    } else {
        match tag_at(s, pos, false) {
            Some(t) => if pos < t.end <= s.len() {
                flag_span_html(tag_id_text(s, t), tag_comment(s, t)) + flags_html_from(s, t.end)
            } else {
                seq![s[pos]] + flags_html_from(s, pos + 1)
            },
            None => seq![s[pos]] + flags_html_from(s, pos + 1),
        }
    }
}

/// The finished page body: code blocks highlighted, then diff blocks laid
/// out, then flags marked up.
pub open spec fn finished_html(html: Seq<char>) -> Seq<char> {
    flags_html_from(diff_from(highlight_from(html, 0), 0), 0)
}

pub proof fn lemma_find_from(s: Seq<char>, pat: Seq<char>, j: int)
    ensures
        find_from(s, pat, j) matches Some(e) ==> j <= e && occurs_at(s, e, pat),
    decreases s.len() - j,
{
    if 0 <= j < s.len() && !occurs_at(s, j, pat) {
        lemma_find_from(s, pat, j + 1);
    }
}

pub proof fn lemma_code_block_at(s: Seq<char>, i: int, only_diff: bool)
    requires
        0 <= i,
    ensures
        code_block_at(s, i, only_diff) matches Some(b) ==> {
            &&& b.start == i
            &&& i <= b.lang_start <= b.lang_end <= b.code_start <= b.code_end <= b.end <= s.len()
            &&& (only_diff ==> block_lang(s, b) == diff_lang())
        },
{
    if occurs_at(s, i, block_open()) {
        let l0 = i + block_open().len();
        lemma_run_ends(s, l0);
        let l1 = word_run_end(s, l0);
        lemma_find_from(s, block_close(), l1 + lang_mark().len());
    }
}

/// The fixed texts that the scanner looks for.
pub struct Marks {
    pub open: Vec<char>,
    pub lang: Vec<char>,
    pub close: Vec<char>,
    pub diff: Vec<char>,
}

impl Marks {
    pub open spec fn wf(&self) -> bool {
        &&& self.open@ == block_open()
        &&& self.lang@ == lang_mark()
        &&& self.close@ == block_close()
        &&& self.diff@ == diff_lang()
    }

    pub fn new() -> (m: Marks)
        ensures
            m.wf(),
    {
        Marks {
            open: str_to_chars("<pre><code class=\"language-"),
            lang: str_to_chars("\">"),
            close: str_to_chars("</code></pre>"),
            diff: str_to_chars("diff"),
        }
    }
}

fn find_from_exec(s: &Vec<char>, pat: &Vec<char>, j: usize) -> (r: Option<usize>)
    ensures
        match r {
            Some(e) => find_from(s@, pat@, j as int) == Some(e as int),
            None => find_from(s@, pat@, j as int) is None,
        },
{
    if j > s.len() {
        return None;
    }
    let mut k = j;
    while k < s.len()
        invariant
            j <= k <= s.len(),
            find_from(s@, pat@, j as int) == find_from(s@, pat@, k as int),
        decreases s.len() - k,
    {
        if occurs_at_exec(s, k, pat) {
            return Some(k);
        }
        k = k + 1;
    }
    if occurs_at_exec(s, k, pat) {
        Some(k)
    } else {
        None
    }
}

fn code_block_at_exec(s: &Vec<char>, i: usize, only_diff: bool, m: &Marks) -> (r: Option<Block>)
    requires
        m.wf(),
    ensures
        match r {
            Some(b) => code_block_at(s@, i as int, only_diff) == Some(b.span()),
            None => code_block_at(s@, i as int, only_diff) is None,
        },
{
    if !occurs_at_exec(s, i, &m.open) {
        return None;
    }
    let open_len = m.open.len();
    assert(i + open_len <= s.len());
    let l0 = i + open_len;
    let l1 = word_run_end_exec(s, l0);
    proof {
        lemma_run_ends(s@, l0 as int);
    }
    if l1 == l0 || !occurs_at_exec(s, l1, &m.lang) {
        return None;
    }
    if only_diff {
        let lang = copy_range(s, l0, l1);
        if !chars_equal(&lang, &m.diff) {
            return None;
        }
    }
    assert(l1 + m.lang@.len() <= s@.len());
    let c0 = l1 + m.lang.len();
    match find_from_exec(s, &m.close, c0) {
        Some(e) => {
            proof {
                lemma_find_from(s@, m.close@, c0 as int);
            }
            let close_len = m.close.len();
            assert(e + close_len <= s.len());
            Some(
                Block {
                    start: i,
                    lang_start: l0,
                    lang_end: l1,
                    code_start: c0,
                    code_end: e,
                    end: e + close_len,
                },
            )
        },
        None => None,
    }
}

fn highlighted_block_exec(s: &Vec<char>, b: Block, m: &Marks) -> (r: Vec<char>)
    requires
        m.wf(),
        b.start <= b.lang_start <= b.lang_end <= b.code_start <= b.code_end <= b.end <= s.len(),
    ensures
        r@ == highlighted_block(s@, b.span()),
{
    let lang = copy_range(s, b.lang_start, b.lang_end);
    if chars_equal(&lang, &m.diff) {
        return copy_range(s, b.start, b.end);
    }
    let code = unescape_chars(&copy_range(s, b.code_start, b.code_end));
    let code_text = chars_to_string(&code);
    let lang_text = chars_to_string(&lang);
    match highlight_code(code_text.as_str(), lang_text.as_str(), "base16-ocean.dark") {
        Some(h) => str_to_chars(h.as_str()),
        None => copy_range(s, b.start, b.end),
    }
}

proof fn lemma_append3(a: Seq<char>, b: Seq<char>, c: Seq<char>)
    ensures
        a + b + c == a + (b + c),
{
    assert(a + b + c =~= a + (b + c));
}

/// Replaces every code block by its highlighted form.
pub fn highlight_code_blocks(s: &Vec<char>) -> (r: Vec<char>)
    ensures
        r@ == highlight_from(s@, 0),
{
    let m = Marks::new();
    let mut out: Vec<char> = Vec::new();
    let mut pos: usize = 0;
    while pos < s.len()
        invariant
            m.wf(),
            pos <= s.len(),
            out@ + highlight_from(s@, pos as int) == highlight_from(s@, 0),
        decreases s.len() - pos,
    {
        let ghost before = out@;
        let found = code_block_at_exec(s, pos, false, &m);
        let mut next = pos + 1;
        match found {
            Some(b) => {
                if pos < b.end && b.end <= s.len() {
                    proof {
                        lemma_code_block_at(s@, pos as int, false);
                    }
                    let rep = highlighted_block_exec(s, b, &m);
                    push_all(&mut out, &rep);
                    proof {
                        lemma_append3(before, rep@, highlight_from(s@, b.end as int));
                    }
                    next = b.end;
                } else {
                    out.push(s[pos]);
                    proof {
                        lemma_append3(before, seq![s@[pos as int]], highlight_from(s@, pos + 1));
                    }
                }
            },
            None => {
                out.push(s[pos]);
                proof {
                    lemma_append3(before, seq![s@[pos as int]], highlight_from(s@, pos + 1));
                }
            },
        }
        pos = next;
    }
    assert(out@ + highlight_from(s@, pos as int) =~= out@);
    out
}

fn diff_class_exec(line: &Vec<char>) -> (r: &'static str)
    ensures
        r@ == diff_class(line@),
{
    let hunk = str_to_chars("@@");
    if line.len() > 0 && line[0] == '+' {
        "diff-added"
    } else if line.len() > 0 && line[0] == '-' {
        "diff-removed"
    } else if occurs_at_exec(line, 0, &hunk) {
        "diff-hunk"
    } else {
        "diff-context"
    }
}

/// Lays out the code of a diff block: one classed, escaped span per line.
pub fn diff_block_exec(raw: &Vec<char>) -> (r: Vec<char>)
    ensures
        r@ == diff_block_html(raw@),
{
    let lines = split_lines(raw);
    let ghost ls = lines_of(raw@);
    let mut body: Vec<char> = Vec::new();
    let mut k: usize = 0;
    while k < lines.len()
        invariant
            ls == lines_of(raw@),
            ls == crate::text::seq_views(lines@),
            k <= lines.len(),
            body@ == diff_lines_html(ls.take(k as int)),
        decreases lines.len() - k,
    {
        let line = &lines[k];
        assert(ls.take(k + 1).drop_last() =~= ls.take(k as int));
        assert(ls.take(k + 1).last() == line@);
        push_str(&mut body, "<span class=\"");
        push_str(&mut body, diff_class_exec(line));
        push_str(&mut body, "\">");
        let esc = escape_chars(line);
        push_all(&mut body, &esc);
        push_str(&mut body, "</span>\n");
        k = k + 1;
    }
    assert(ls.take(lines.len() as int) =~= ls);
    let mut out: Vec<char> = Vec::new();
    push_str(&mut out, "<pre class=\"diff-block\"><code>");
    push_all(&mut out, &body);
    push_str(&mut out, "</code></pre>");
    out
}

/// Lays out every diff block line by line.
pub fn render_diff_blocks(s: &Vec<char>) -> (r: Vec<char>)
    ensures
        r@ == diff_from(s@, 0),
{
    let m = Marks::new();
    let mut out: Vec<char> = Vec::new();
    let mut pos: usize = 0;
    while pos < s.len()
        invariant
            m.wf(),
            pos <= s.len(),
            out@ + diff_from(s@, pos as int) == diff_from(s@, 0),
        decreases s.len() - pos,
    {
        let ghost before = out@;
        let found = code_block_at_exec(s, pos, true, &m);
        let mut next = pos + 1;
        match found {
            Some(b) => {
                if pos < b.end && b.end <= s.len() {
                    proof {
                        lemma_code_block_at(s@, pos as int, true);
                    }
                    let raw = unescape_chars(&copy_range(s, b.code_start, b.code_end));
                    let rep = diff_block_exec(&raw);
                    push_all(&mut out, &rep);
                    proof {
                        lemma_append3(before, rep@, diff_from(s@, b.end as int));
                    }
                    next = b.end;
                } else {
                    out.push(s[pos]);
                    proof {
                        lemma_append3(before, seq![s@[pos as int]], diff_from(s@, pos + 1));
                    }
                }
            },
            None => {
                out.push(s[pos]);
                proof {
                    lemma_append3(before, seq![s@[pos as int]], diff_from(s@, pos + 1));
                }
            },
        }
        pos = next;
    }
    assert(out@ + diff_from(s@, pos as int) =~= out@);
    out
}

fn flag_span_exec(s: &Vec<char>, t: crate::tags::Tag) -> (r: Vec<char>)
    requires
        t.id_start <= t.id_end <= s.len(),
        t.comment_start <= t.comment_end <= s.len(),
    ensures
        r@ == flag_span_html(tag_id_text(s@, t.span()), tag_comment(s@, t.span())),
{
    let id = copy_range(s, t.id_start, t.id_end);
    let comment = copy_range(s, t.comment_start, t.comment_end);
    let esc = escape_chars(&trim_exec(&comment));
    let mut out: Vec<char> = Vec::new();
    push_str(&mut out, "<span class=\"flag\" data-flag-id=\"");
    push_all(&mut out, &id);
    push_str(&mut out, "\"><span class=\"flag-marker\">#");
    push_all(&mut out, &id);
    push_str(&mut out, "</span><span class=\"flag-comment\">");
    push_all(&mut out, &esc);
    push_str(&mut out, "</span></span>");
    out
}

/// Replaces every flag tag by its marked-up span.
pub fn render_flags(s: &Vec<char>) -> (r: Vec<char>)
    ensures
        r@ == flags_html_from(s@, 0),
{
    let mut out: Vec<char> = Vec::new();
    let mut pos: usize = 0;
    while pos < s.len()
        invariant
            pos <= s.len(),
            out@ + flags_html_from(s@, pos as int) == flags_html_from(s@, 0),
        decreases s.len() - pos,
    {
        let ghost before = out@;
        let found = tag_at_exec(s, pos, false);
        let mut next = pos + 1;
        match found {
            Some(t) => {
                if pos < t.end && t.end <= s.len() {
                    proof {
                        lemma_tag_at_well_placed(s@, pos as int, false);
                    }
                    let rep = flag_span_exec(s, t);
                    push_all(&mut out, &rep);
                    proof {
                        lemma_append3(before, rep@, flags_html_from(s@, t.end as int));
                    }
                    next = t.end;
                } else {
                    out.push(s[pos]);
                    proof {
                        lemma_append3(before, seq![s@[pos as int]], flags_html_from(s@, pos + 1));
                    }
                }
            },
            None => {
                out.push(s[pos]);
                proof {
                    lemma_append3(before, seq![s@[pos as int]], flags_html_from(s@, pos + 1));
                }
            },
        }
        pos = next;
    }
    assert(out@ + flags_html_from(s@, pos as int) =~= out@);
    out
}

/// Finishes the HTML of a rendered markdown page: code blocks are
/// highlighted, diff blocks laid out, and flags marked up.
pub fn finish_html(html: &str) -> (r: String)
    ensures
        r@ == finished_html(html@),
{
    let s = str_to_chars(html);
    let a = highlight_code_blocks(&s);
    let b = render_diff_blocks(&a);
    let c = render_flags(&b);
    chars_to_string(&c)
}

proof fn lemma_passes_keep_plain(s: Seq<char>, pos: int)
    requires
        0 <= pos <= s.len(),
        forall|i: int| 0 <= i < s.len() ==> !occurs_at(s, i, block_open()),
        forall|i: int| 0 <= i < s.len() ==> !occurs_at(s, i, open_pat()),
    ensures
        highlight_from(s, pos) == s.subrange(pos, s.len() as int),
        diff_from(s, pos) == s.subrange(pos, s.len() as int),
        flags_html_from(s, pos) == s.subrange(pos, s.len() as int),
    decreases s.len() - pos,
{
    if pos < s.len() {
        lemma_no_tag_without_open(s, pos, false);
        lemma_passes_keep_plain(s, pos + 1);
        assert(seq![s[pos]] + s.subrange(pos + 1, s.len() as int) =~= s.subrange(
            pos,
            s.len() as int,
        ));
    } else {
        assert(s.subrange(pos, s.len() as int) =~= Seq::<char>::empty());
    }
}

/// HTML without code blocks and without flag tags is left as it is: only
/// code blocks, diff blocks and flags are rewritten.
pub proof fn law_plain_html_unchanged(html: Seq<char>)
    requires
        !contains_seq(html, block_open()),
        !contains_seq(html, open_pat()),
    ensures
        finished_html(html) == html,
{
    assert forall|i: int| 0 <= i < html.len() implies !occurs_at(html, i, block_open()) by {
        if occurs_at(html, i, block_open()) {
            assert(contains_seq(html, block_open()));
        }
    }
    assert forall|i: int| 0 <= i < html.len() implies !occurs_at(html, i, open_pat()) by {
        if occurs_at(html, i, open_pat()) {
            assert(contains_seq(html, open_pat()));
        }
    }
    lemma_passes_keep_plain(html, 0);
    assert(html.subrange(0, html.len() as int) =~= html);
}

} // verus!
